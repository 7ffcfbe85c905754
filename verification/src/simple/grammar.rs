//! The grammar of expressions, character by character: where each piece
//! of an expression ends and what reading it gives.

use vstd::prelude::*;

use crate::rational::text::text_value;
use crate::simple::{Operand, Operator, Simple, is_alphanumeric, is_letter};

verus! {

/// A character that may stand in a number.
pub open spec fn literal_char(c: char) -> bool {
    ('0' <= c && c <= '9') || c == '.' || c == '/' || c == '_' || c == ',' || c == '\''
}

/// A character of a number that is left out of its value.
pub open spec fn ignored_char(c: char) -> bool {
    c == '_' || c == ',' || c == '\''
}

/// Where a run of number characters from `j` on ends.
pub open spec fn scan_literal(text: Seq<char>, j: int) -> int
    decreases text.len() - j,
{
    if 0 <= j < text.len() && literal_char(text[j]) {
        scan_literal(text, j + 1)
    } else {
        j
    }
}

/// Where the number at `i`, with its optional minus sign, ends.
pub open spec fn literal_end(text: Seq<char>, i: int) -> int {
    scan_literal(text, if text[i] == '-' { i + 1 } else { i })
}

/// The characters without those left out of a number's value.
pub open spec fn without_ignored(s: Seq<char>) -> Seq<char>
    decreases s.len(),
{
    if s.len() == 0 {
        s
    } else if ignored_char(s.last()) {
        without_ignored(s.drop_last())
    } else {
        without_ignored(s.drop_last()).push(s.last())
    }
}

/// The text of the number at `i`, as it is read.
pub open spec fn literal_text(text: Seq<char>, i: int) -> Seq<char> {
    without_ignored(text.subrange(i, literal_end(text, i)))
}

/// Where a run of letters and digits from `j` on ends.
pub open spec fn scan_symbol(text: Seq<char>, j: int) -> int
    decreases text.len() - j,
{
    if 0 <= j < text.len() && is_alphanumeric(text[j]) {
        scan_symbol(text, j + 1)
    } else {
        j
    }
}

/// Where the name at `i`, with its optional `#`, ends.
pub open spec fn symbol_end(text: Seq<char>, i: int) -> int {
    scan_symbol(text, if text[i] == '#' { i + 1 } else { i })
}

/// Where reading `suffix` at `p` stops: after the characters that match,
/// up to the first that does not.
pub open spec fn eat_end(text: Seq<char>, p: int, suffix: Seq<char>) -> int
    decreases suffix.len(),
{
    if suffix.len() == 0 {
        p
    } else if 0 <= p < text.len() && text[p] == suffix[0] {
        eat_end(text, p + 1, suffix.skip(1))
    } else {
        p
    }
}

/// The whole of `suffix` is at `p`, and no letter follows it.
pub open spec fn eat_ok(text: Seq<char>, p: int, suffix: Seq<char>) -> bool {
    let e = p + suffix.len();
    &&& 0 <= p && e <= text.len() && text.subrange(p, e) == suffix
    &&& !(e < text.len() && is_letter(text[e]))
}

/// Reading `first`, and only when that fails `second`: whether one was
/// read whole, and where reading stopped.
pub open spec fn eat_either(text: Seq<char>, p: int, first: Seq<char>, second: Seq<char>) -> (bool, int) {
    if eat_ok(text, p, first) {
        (true, eat_end(text, p, first))
    } else {
        let q = eat_end(text, p, first);
        (eat_ok(text, q, second), eat_end(text, q, second))
    }
}

/// Reading a named operator whose first letter is at `j`: the operator,
/// or `No such operator`, and where reading stopped.
pub open spec fn operator_at(text: Seq<char>, j: int) -> (Result<Operator, &'static str>, int) {
    if j < 0 || j >= text.len() {
        (Err("No such operator"), j)
    } else {
        let f = text[j];
        let c = j + 1;
        if f == 'l' {
            let (ok1, c1) = eat_either(text, c, "og10"@, "og"@);
            if ok1 {
                (Ok(Operator::Log10), c1)
            } else {
                let (ok2, c2) = eat_either(text, c1, "n"@, ""@);
                if ok2 {
                    (Ok(Operator::Ln), c2)
                } else {
                    (Err("No such operator"), c2)
                }
            }
        } else if f == 'e' {
            let (ok1, c1) = eat_either(text, c, "xp"@, ""@);
            if ok1 {
                (Ok(Operator::Exp), c1)
            } else {
                (Err("No such operator"), c1)
            }
        } else if f == 's' {
            let (ok1, c1) = eat_either(text, c, "qrt"@, ""@);
            if ok1 {
                (Ok(Operator::Sqrt), c1)
            } else if eat_ok(text, c1, "in"@) {
                (Ok(Operator::Sin), eat_end(text, c1, "in"@))
            } else {
                (Err("No such operator"), eat_end(text, c1, "in"@))
            }
        } else if f == 'c' || f == 'p' || f == 't' {
            let suffix = if f == 'c' {
                "os"@
            } else if f == 'p' {
                "ow"@
            } else {
                "an"@
            };
            let op = if f == 'c' {
                Operator::Cos
            } else if f == 'p' {
                Operator::Pow
            } else {
                Operator::Tan
            };
            if eat_ok(text, c, suffix) {
                (Ok(op), eat_end(text, c, suffix))
            } else {
                (Err("No such operator"), eat_end(text, c, suffix))
            }
        } else {
            (Err("No such operator"), c)
        }
    }
}

/// Reading the operator of an expression at `j`: a sign, or a name that
/// starts with a small letter.
pub open spec fn op_at(text: Seq<char>, j: int) -> (Result<Operator, &'static str>, int) {
    let unexpected = "Unexpected symbol while looking for an operator";
    if j < 0 || j >= text.len() {
        (Err(unexpected), j)
    } else {
        let c = text[j];
        if c == '+' {
            (Ok(Operator::Plus), j + 1)
        } else if c == '-' {
            (Ok(Operator::Minus), j + 1)
        } else if c == '*' {
            (Ok(Operator::Star), j + 1)
        } else if c == '/' {
            (Ok(Operator::Slash), j + 1)
        } else if c == '^' {
            (Ok(Operator::Pow), j + 1)
        } else if c == '√' {
            (Ok(Operator::Sqrt), j + 1)
        } else if 'a' <= c && c <= 'z' {
            operator_at(text, j)
        } else {
            (Err(unexpected), j)
        }
    }
}

/// Any outcome and end: the place where a proof names what reading a
/// parenthesised operand gave.
pub open spec fn found(res: Result<Simple, &'static str>, q: int) -> bool {
    true
}

/// Reading an expression at `p` gives `res` and stops at `q`: an opening
/// parenthesis, an operator, one space or tab, then the operands.
pub open spec fn expression_at(res: Result<Simple, &'static str>, text: Seq<char>, p: int, q: int) -> bool
    decreases text.len() - p, 0int,
{
    if p < 0 || p >= text.len() || text[p] != '(' {
        res == Err::<Simple, &'static str>("No parenthetical expression") && q == p
    } else {
        let (opr, w) = op_at(text, p + 1);
        proof {
            lemma_op_at_advances(text, p + 1);
        }
        match opr {
            Err(m) => res == Err::<Simple, &'static str>(m) && q == w,
            Ok(op) => if w < text.len() && (text[w] == ' ' || text[w] == '\t') {
                operands_at(res, op, text, w + 1, 0, q)
            } else {
                res == Err::<Simple, &'static str>("No whitespace after operator") && q == w
            },
        }
    }
}

/// Reading operands from `i` on, with `k` operands read before, gives
/// `res` and stops at `q`: spaces and tabs are skipped, names, numbers and
/// parenthesised expressions are operands in turn, and a closing
/// parenthesis ends the expression.
pub open spec fn operands_at(
    res: Result<Simple, &'static str>,
    op: Operator,
    text: Seq<char>,
    i: int,
    k: int,
    q: int,
) -> bool
    decreases text.len() - i, 1int,
{
    if i < 0 || i >= text.len() {
        res == Err::<Simple, &'static str>("Incomplete expression") && q == i
    } else {
        let c = text[i];
        if c == ' ' || c == '\t' {
            operands_at(res, op, text, i + 1, k, q)
        } else if c == '#' || ('a' <= c && c <= 'z') {
            let e = symbol_end(text, i);
            proof {
                lemma_symbol_end_advances(text, i);
            }
            &&& res matches Ok(s) ==> (0 <= k < s.operands_spec().len() && (
            s.operands_spec()[k] matches Operand::Symbol(v) && v@ == text.subrange(i, e)))
            &&& operands_at(res, op, text, e, k + 1, q)
        } else if c == '-' || ('0' <= c && c <= '9') {
            let e = literal_end(text, i);
            proof {
                lemma_literal_end_advances(text, i);
            }
            match text_value(literal_text(text, i)) {
                None => res == Err::<Simple, &'static str>("Unable to parse number") && q == e,
                Some((n, d)) => if d == 0 {
                    res == Err::<Simple, &'static str>("Attempting to divide by zero") && q == e
                } else {
                    &&& res matches Ok(s) ==> (0 <= k < s.operands_spec().len() && (
                    s.operands_spec()[k] matches Operand::Literal(r) && r.same_value(n, d as int)))
                    &&& operands_at(res, op, text, e, k + 1, q)
                },
            }
        } else if c == '(' {
            exists|sub: Result<Simple, &'static str>, e: int|
                #[trigger] found(sub, e) && e > i && expression_at(sub, text, i, e) && match sub {
                    Err(m) => res == Err::<Simple, &'static str>(m) && q == e,
                    Ok(x) => {
                        &&& res matches Ok(s) ==> (0 <= k < s.operands_spec().len()
                            && s.operands_spec()[k] == Operand::SubExpression(x))
                        &&& if i < e <= text.len() {
                            operands_at(res, op, text, e, k + 1, q)
                        } else {
                            false
                        }
                    },
                }
        } else if c == ')' {
            res matches Ok(s) && s.op_spec() == op && s.operands_spec().len() == k && q == i + 1
        } else {
            res == Err::<Simple, &'static str>("Unexpected character while looking for operands ...")
                && q == i
        }
    }
}

pub proof fn lemma_scan_literal_from(text: Seq<char>, j: int)
    ensures
        scan_literal(text, j) >= j,
        0 <= j < text.len() && literal_char(text[j]) ==> scan_literal(text, j) > j,
    decreases text.len() - j,
{
    if 0 <= j < text.len() && literal_char(text[j]) {
        lemma_scan_literal_from(text, j + 1);
    }
}

pub proof fn lemma_scan_symbol_from(text: Seq<char>, j: int)
    ensures
        scan_symbol(text, j) >= j,
        0 <= j < text.len() && is_alphanumeric(text[j]) ==> scan_symbol(text, j) > j,
    decreases text.len() - j,
{
    if 0 <= j < text.len() && is_alphanumeric(text[j]) {
        lemma_scan_symbol_from(text, j + 1);
    }
}

/// A number takes at least one character.
pub proof fn lemma_literal_end_advances(text: Seq<char>, i: int)
    requires
        0 <= i < text.len(),
        text[i] == '-' || ('0' <= text[i] && text[i] <= '9'),
    ensures
        i < literal_end(text, i) <= text.len(),
{
    let j = if text[i] == '-' { i + 1 } else { i };
    lemma_scan_literal_from(text, j);
    lemma_scan_literal_bound(text, j);
}

pub proof fn lemma_scan_literal_bound(text: Seq<char>, j: int)
    requires
        j <= text.len(),
    ensures
        scan_literal(text, j) <= text.len(),
    decreases text.len() - j,
{
    if 0 <= j < text.len() && literal_char(text[j]) {
        lemma_scan_literal_bound(text, j + 1);
    }
}

pub proof fn lemma_scan_symbol_bound(text: Seq<char>, j: int)
    requires
        j <= text.len(),
    ensures
        scan_symbol(text, j) <= text.len(),
    decreases text.len() - j,
{
    if 0 <= j < text.len() && is_alphanumeric(text[j]) {
        lemma_scan_symbol_bound(text, j + 1);
    }
}

/// A name takes at least one character.
pub proof fn lemma_symbol_end_advances(text: Seq<char>, i: int)
    requires
        0 <= i < text.len(),
        text[i] == '#' || ('a' <= text[i] && text[i] <= 'z'),
    ensures
        i < symbol_end(text, i) <= text.len(),
{
    let j = if text[i] == '#' { i + 1 } else { i };
    lemma_scan_symbol_from(text, j);
    lemma_scan_symbol_bound(text, j);
}

pub proof fn lemma_eat_end_from(text: Seq<char>, p: int, suffix: Seq<char>)
    ensures
        eat_end(text, p, suffix) >= p,
    decreases suffix.len(),
{
    if suffix.len() > 0 && 0 <= p < text.len() && text[p] == suffix[0] {
        lemma_eat_end_from(text, p + 1, suffix.skip(1));
    }
}

/// Reading an operator moves on.
pub proof fn lemma_op_at_advances(text: Seq<char>, j: int)
    ensures
        op_at(text, j).1 >= j,
{
    let c = j + 1;
    lemma_eat_end_from(text, c, "og10"@);
    lemma_eat_end_from(text, eat_end(text, c, "og10"@), "og"@);
    let c1 = eat_either(text, c, "og10"@, "og"@).1;
    lemma_eat_end_from(text, c1, "n"@);
    lemma_eat_end_from(text, eat_end(text, c1, "n"@), ""@);
    lemma_eat_end_from(text, c, "xp"@);
    lemma_eat_end_from(text, eat_end(text, c, "xp"@), ""@);
    lemma_eat_end_from(text, c, "qrt"@);
    lemma_eat_end_from(text, eat_end(text, c, "qrt"@), ""@);
    let s1 = eat_either(text, c, "qrt"@, ""@).1;
    lemma_eat_end_from(text, s1, "in"@);
    lemma_eat_end_from(text, c, "os"@);
    lemma_eat_end_from(text, c, "ow"@);
    lemma_eat_end_from(text, c, "an"@);
}

} // verus!
