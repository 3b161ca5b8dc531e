//! Expressions, parsed by precedence climbing (Pratt parsing).
use vstd::prelude::*;
use vstd::string::StrSliceExecFns;
use vstd::string::StringExecFns;

use crate::lexer::{Kind, Span, Token, TokenModel};
use crate::parser::ast::{models, Expr, ExprModel, Literal, LiteralModel};
use crate::lexer::text::{byte_length, char_width, lemma_byte_len_bounds, split_chars};
use crate::parser::operator::Operator;
use crate::parser::{aligned, error_at, kind_at, token_text, ErrorModel, ParseError, Parser, Reason};

verus! {

/// The outcome of parsing from a token position: a model and the position
/// after what was parsed, or an error.
pub type PResult = Result<(ExprModel, int), ErrorModel>;

/// Whether `c` is an ASCII decimal digit.
pub open spec fn is_digit(c: char) -> bool {
    '0' <= c <= '9'
}

/// The value of a run of decimal digits.
pub open spec fn digits_value(s: Seq<char>) -> nat
    decreases s.len(),
{
    if s.len() == 0 {
        0
    } else {
        digits_value(s.drop_last()) * 10 + ((s.last() as u32) - ('0' as u32)) as nat
    }
}

/// The value that the text of an integer literal denotes: a non-empty run of
/// decimal digits whose value fits in a `usize`.
pub open spec fn integer_value(s: Seq<char>) -> Option<nat> {
    if s.len() > 0 && (forall|i: int| 0 <= i < s.len() ==> is_digit(#[trigger] s[i]))
        && digits_value(s) <= usize::MAX {
        Some(digits_value(s))
    } else {
        None
    }
}

/// Number of ASCII decimal digits at the start of `s`.
pub open spec fn digit_run(s: Seq<char>) -> nat
    decreases s.len(),
{
    if s.len() > 0 && is_digit(s[0]) {
        1 + digit_run(s.drop_first())
    } else {
        0
    }
}

/// Whether `s` is an exponent: `e` or `E`, an optional sign, then one or more
/// digits.
pub open spec fn is_exponent(s: Seq<char>) -> bool {
    s.len() >= 2 && (s[0] == 'e' || s[0] == 'E') && {
        let digits = if s[1] == '+' || s[1] == '-' {
            s.skip(2)
        } else {
            s.skip(1)
        };
        digits.len() > 0 && digit_run(digits) == digits.len()
    }
}

/// Whether `s` is a floating-point literal: digits, a point and one or more
/// digits (or a point and one or more digits), then an optional exponent.
pub open spec fn is_double_text(s: Seq<char>) -> bool {
    let rest = s.skip(digit_run(s) as int);
    rest.len() > 0 && rest[0] == '.' && {
        let fraction = rest.skip(1);
        let n = digit_run(fraction);
        n > 0 && (n == fraction.len() || is_exponent(fraction.skip(n as int)))
    }
}

/// Kinds that end an expression.
pub open spec fn is_terminator(kind: Kind) -> bool {
    kind == Kind::RParen || kind == Kind::RBrace || kind == Kind::Comma || kind == Kind::SemiColon
        || kind == Kind::Eof
}

/// Kinds that can follow an expression as an infix or postfix operator.
pub open spec fn is_operator(kind: Kind) -> bool {
    kind.infix_power() is Some || kind.postfix_power() is Some
}

/// Parses an expression at position `i` of `t` whose operators bind at least
/// as tightly as `bp`.
pub open spec fn parse_expr(t: Seq<TokenModel>, src: Seq<u8>, i: int, bp: u8) -> PResult
    decreases t.len() - i, 2nat,
{
    if !(0 <= i < t.len()) {
        Err(error_at(t, i, Reason::UnknownExpressionStart, src.len()))
    } else {
        match parse_primary(t, src, i) {
            Ok((lhs, j)) => if i < j <= t.len() {
                parse_ops(t, src, lhs, j, bp)
            } else {
                Ok((lhs, j))
            },
            Err(e) => Err(e),
        }
    }
}

/// Parses what can start an expression at position `i` of `t`: a literal, an
/// identifier, a function call, a group or a prefix operator with its operand.
pub open spec fn parse_primary(t: Seq<TokenModel>, src: Seq<u8>, i: int) -> PResult
    decreases t.len() - i, 1nat,
{
    if !(0 <= i < t.len()) {
        Err(error_at(t, i, Reason::UnknownExpressionStart, src.len()))
    } else {
        let kind = t[i].kind;
        let text = token_text(src, t[i]);
        match kind {
            Kind::Integer => match integer_value(text) {
                Some(v) => Ok((ExprModel::Literal(LiteralModel::Integer(v)), i + 1)),
                None => Err(error_at(t, i, Reason::InvalidLiteral, src.len())),
            },
            Kind::Double => if is_double_text(text) {
                Ok((ExprModel::Literal(LiteralModel::Double(text)), i + 1))
            } else {
                Err(error_at(t, i, Reason::InvalidLiteral, src.len()))
            },
            Kind::String => if text.len() >= 2 {
                Ok(
                    (
                        ExprModel::Literal(
                            LiteralModel::String(text.subrange(1, text.len() - 1)),
                        ),
                        i + 1,
                    ),
                )
            } else {
                Err(error_at(t, i, Reason::InvalidLiteral, src.len()))
            },
            Kind::Identifier => if kind_at(t, i + 1) == Kind::LParen {
                match parse_args(t, src, i + 2, seq![]) {
                    Ok((args, j)) => Ok((ExprModel::FunctionCall { name: text, args }, j)),
                    Err(e) => Err(e),
                }
            } else {
                Ok((ExprModel::Identifier(text), i + 1))
            },
            Kind::LParen => match parse_expr(t, src, i + 1, 0) {
                Ok((inner, j)) => if kind_at(t, j) == Kind::RParen {
                    Ok((inner, j + 1))
                } else {
                    Err(error_at(t, j, Reason::Expected(Kind::RParen), src.len()))
                },
                Err(e) => Err(e),
            },
            Kind::Plus | Kind::Minus | Kind::Bang => match parse_expr(
                t,
                src,
                i + 1,
                kind.prefix_power()->0,
            ) {
                Ok((operand, j)) => Ok(
                    (ExprModel::PrefixOperator { op: kind, expr: Box::new(operand) }, j),
                ),
                Err(e) => Err(e),
            },
            _ => Err(error_at(t, i, Reason::UnknownExpressionStart, src.len())),
        }
    }
}

/// Parses the arguments of a function call from position `i` of `t` up to and
/// including the closing parenthesis, after the arguments `acc` already parsed.
pub open spec fn parse_args(t: Seq<TokenModel>, src: Seq<u8>, i: int, acc: Seq<ExprModel>) -> Result<
    (Seq<ExprModel>, int),
    ErrorModel,
>
    decreases t.len() - i, 3nat,
{
    if !(0 <= i < t.len()) {
        Err(error_at(t, i, Reason::UnknownExpressionStart, src.len()))
    } else if t[i].kind == Kind::RParen {
        Ok((acc, i + 1))
    } else {
        match parse_expr(t, src, i, 0) {
            Ok((arg, j)) => if i < j <= t.len() {
                let k = if kind_at(t, j) == Kind::Comma {
                    j + 1
                } else {
                    j
                };
                parse_args(t, src, k, acc.push(arg))
            } else {
                Ok((acc, j))
            },
            Err(e) => Err(e),
        }
    }
}

/// Extends the left-hand side `lhs`, which ends before position `j` of `t`,
/// with the operators that follow it and bind at least as tightly as `bp`.
pub open spec fn parse_ops(t: Seq<TokenModel>, src: Seq<u8>, lhs: ExprModel, j: int, bp: u8) -> PResult
    decreases t.len() - j, 3nat,
{
    let op = kind_at(t, j);
    if is_terminator(op) {
        Ok((lhs, j))
    } else if !is_operator(op) {
        Err(error_at(t, j, Reason::UnrecognizedOperator, src.len()))
    } else {
        match op.postfix_power() {
            Some(left) => if left < bp {
                Ok((lhs, j))
            } else {
                parse_ops(t, src, ExprModel::PostfixOperator { op, expr: Box::new(lhs) }, j + 1, bp)
            },
            None => match op.infix_power() {
                Some((left, right)) => if left < bp {
                    Ok((lhs, j))
                } else {
                    match parse_expr(t, src, j + 1, right) {
                        Ok((rhs, m)) => if j < m <= t.len() {
                            parse_ops(
                                t,
                                src,
                                ExprModel::InfixOperator {
                                    op,
                                    lhs: Box::new(lhs),
                                    rhs: Box::new(rhs),
                                },
                                m,
                                bp,
                            )
                        } else {
                            Ok((lhs, m))
                        },
                        Err(e) => Err(e),
                    }
                },
                None => Ok((lhs, j)),
            },
        }
    }
}

/// Precedence and associativity: in `a op1 b op2 c`, followed by a token that
/// ends the expression, the second operator takes `b` as its left operand
/// exactly when its left binding power is at least the right binding power of
/// the first; otherwise the first operator's application is its left operand.
pub proof fn lemma_binary_precedence(t: Seq<TokenModel>, src: Seq<u8>)
    requires
        t.len() >= 6,
        t[0].kind == Kind::Identifier,
        t[2].kind == Kind::Identifier,
        t[4].kind == Kind::Identifier,
        is_terminator(t[5].kind),
        t[1].kind.infix_power() is Some,
        t[1].kind.postfix_power() is None,
        t[3].kind.infix_power() is Some,
        t[3].kind.postfix_power() is None,
    ensures
        ({
            let a = ExprModel::Identifier(token_text(src, t[0]));
            let b = ExprModel::Identifier(token_text(src, t[2]));
            let c = ExprModel::Identifier(token_text(src, t[4]));
            let (op1, op2) = (t[1].kind, t[3].kind);
            let right1 = (op1.infix_power()->0).1;
            let left2 = (op2.infix_power()->0).0;
            parse_expr(t, src, 0, 0) == Ok::<(ExprModel, int), ErrorModel>(
                (
                    if left2 >= right1 {
                        ExprModel::InfixOperator {
                            op: op1,
                            lhs: Box::new(a),
                            rhs: Box::new(
                                ExprModel::InfixOperator {
                                    op: op2,
                                    lhs: Box::new(b),
                                    rhs: Box::new(c),
                                },
                            ),
                        }
                    } else {
                        ExprModel::InfixOperator {
                            op: op2,
                            lhs: Box::new(
                                ExprModel::InfixOperator {
                                    op: op1,
                                    lhs: Box::new(a),
                                    rhs: Box::new(b),
                                },
                            ),
                            rhs: Box::new(c),
                        }
                    },
                    5,
                ),
            )
        }),
{
    let a = ExprModel::Identifier(token_text(src, t[0]));
    let b = ExprModel::Identifier(token_text(src, t[2]));
    let c = ExprModel::Identifier(token_text(src, t[4]));
    let (op1, op2) = (t[1].kind, t[3].kind);
    let (left1, right1) = op1.infix_power()->0;
    let (left2, right2) = op2.infix_power()->0;
    assert(kind_at(t, 1) == op1 && kind_at(t, 3) == op2 && kind_at(t, 5) == t[5].kind);
    assert(parse_primary(t, src, 0) == Ok::<(ExprModel, int), ErrorModel>((a, 1)));
    assert(parse_primary(t, src, 2) == Ok::<(ExprModel, int), ErrorModel>((b, 3)));
    assert(parse_primary(t, src, 4) == Ok::<(ExprModel, int), ErrorModel>((c, 5)));
    assert(parse_expr(t, src, 0, 0) == parse_ops(t, src, a, 1, 0));
    let ab = ExprModel::InfixOperator { op: op1, lhs: Box::new(a), rhs: Box::new(b) };
    let bc = ExprModel::InfixOperator { op: op2, lhs: Box::new(b), rhs: Box::new(c) };
    assert(parse_expr(t, src, 4, right2) == parse_ops(t, src, c, 5, right2));
    assert(parse_expr(t, src, 4, right2) == Ok::<(ExprModel, int), ErrorModel>((c, 5)));
    assert(parse_expr(t, src, 2, right1) == parse_ops(t, src, b, 3, right1));
    if left2 >= right1 {
        assert(parse_ops(t, src, bc, 5, right1) == Ok::<(ExprModel, int), ErrorModel>((bc, 5)));
        assert(parse_ops(t, src, b, 3, right1) == parse_ops(t, src, bc, 5, right1));
        let abc = ExprModel::InfixOperator { op: op1, lhs: Box::new(a), rhs: Box::new(bc) };
        assert(parse_ops(t, src, a, 1, 0) == parse_ops(t, src, abc, 5, 0));
        assert(parse_ops(t, src, abc, 5, 0) == Ok::<(ExprModel, int), ErrorModel>((abc, 5)));
    } else {
        assert(parse_ops(t, src, b, 3, right1) == Ok::<(ExprModel, int), ErrorModel>((b, 3)));
        assert(parse_ops(t, src, a, 1, 0) == parse_ops(t, src, ab, 3, 0));
        let abc = ExprModel::InfixOperator { op: op2, lhs: Box::new(ab), rhs: Box::new(c) };
        assert(parse_ops(t, src, ab, 3, 0) == parse_ops(t, src, abc, 5, 0));
        assert(parse_ops(t, src, abc, 5, 0) == Ok::<(ExprModel, int), ErrorModel>((abc, 5)));
    }
}

/// The models of a list of expressions grow with the list.
proof fn lemma_models_push(exprs: Seq<Expr>, e: Expr, i: nat)
    requires
        i <= exprs.len(),
    ensures
        models(exprs.push(e), i) == models(exprs, i).push(e.model()),
    decreases exprs.len() - i,
{
    if i < exprs.len() {
        lemma_models_push(exprs, e, i + 1);
        assert(exprs.push(e)[i as int] == exprs[i as int]);
        assert(models(exprs.push(e), i) =~= models(exprs, i).push(e.model()));
    } else {
        assert(exprs.push(e)[i as int] == e);
        assert(models(exprs.push(e), i + 1) =~= Seq::<ExprModel>::empty());
        assert(models(exprs, i) =~= Seq::<ExprModel>::empty());
        assert(models(exprs.push(e), i) =~= models(exprs, i).push(e.model()));
    }
}

/// A prefix of a run of digits denotes at most the value of the whole run.
proof fn lemma_digits_prefix(s: Seq<char>, k: int)
    requires
        0 <= k <= s.len(),
    ensures
        digits_value(s.take(k)) <= digits_value(s),
    decreases s.len(),
{
    if k < s.len() {
        lemma_digits_prefix(s.drop_last(), k);
        assert(s.drop_last().take(k) =~= s.take(k));
    } else {
        assert(s.take(k) =~= s);
    }
}

/// Takes the first character off a non-empty text.
fn split_first(text: &str) -> (r: (char, &str))
    requires
        text@.len() > 0,
    ensures
        r.0 == text@[0],
        r.1@ == text@.skip(1),
{
    let c = text.get_char(0);
    proof {
        assert(text@.take(1) =~= seq![c]);
    }
    let (_, rest) = split_chars(text, char_width(c), Ghost(1));
    (c, rest)
}

/// Reads the value of an integer literal's text.
fn parse_integer(text: &str) -> (r: Option<usize>)
    ensures
        r is Some <==> integer_value(text@) is Some,
        r matches Some(v) ==> integer_value(text@) == Some(v as nat),
{
    let ghost s = text@;
    proof {
        lemma_byte_len_bounds(s);
    }
    if byte_length(text) == 0 {
        return None;
    }
    let mut value: usize = 0;
    let mut rest = text;
    let ghost mut i: int = 0;
    proof {
        assert(s.take(0) =~= Seq::<char>::empty());
        assert(s.skip(0) =~= s);
    }
    while byte_length(rest) > 0
        invariant
            s == text@,
            s.len() > 0,
            0 <= i <= s.len(),
            rest@ == s.skip(i),
            value == digits_value(s.take(i)),
            forall|j: int| 0 <= j < i ==> is_digit(#[trigger] s[j]),
        decreases s.len() - i,
    {
        proof {
            lemma_byte_len_bounds(rest@);
        }
        let (c, tail) = split_first(rest);
        if !('0' <= c && c <= '9') {
            return None;
        }
        let d = (c as u32 - '0' as u32) as usize;
        proof {
            assert(s.take(i + 1).drop_last() =~= s.take(i));
            assert(s.take(i + 1).last() == c);
        }
        if value > (usize::MAX - d) / 10 {
            proof {
                assert(digits_value(s.take(i + 1)) > usize::MAX) by (nonlinear_arith)
                    requires
                        value > (usize::MAX - d) / 10,
                        digits_value(s.take(i + 1)) == value * 10 + d,
                        d <= 9,
                ;
                if forall|j: int| 0 <= j < s.len() ==> is_digit(#[trigger] s[j]) {
                    lemma_digits_prefix(s, i + 1);
                }
            }
            return None;
        }
        proof {
            assert(value * 10 + d <= usize::MAX) by (nonlinear_arith)
                requires
                    value <= (usize::MAX - d) / 10,
                    d <= 9,
            ;
        }
        value = value * 10 + d;
        rest = tail;
        proof {
            assert(s.skip(i).skip(1) =~= s.skip(i + 1));
            i = i + 1;
        }
    }
    proof {
        lemma_byte_len_bounds(rest@);
        assert(s.take(i) =~= s);
    }
    Some(value)
}

/// A run of digits never goes past the end of the text.
proof fn lemma_digit_run_bound(s: Seq<char>)
    ensures
        digit_run(s) <= s.len(),
    decreases s.len(),
{
    if s.len() > 0 && is_digit(s[0]) {
        lemma_digit_run_bound(s.drop_first());
    }
}

/// Splits the run of digits off the start of `text`.
fn skip_digits(text: &str) -> (r: (usize, &str))
    ensures
        r.0 == digit_run(text@),
        r.1@ == text@.skip(r.0 as int),
{
    let ghost s = text@;
    let mut count: usize = 0;
    let mut rest = text;
    let mut more = true;
    let total = byte_length(text);
    proof {
        assert(s.skip(0) =~= s);
        lemma_digit_run_bound(s);
        lemma_byte_len_bounds(s);
    }
    while more
        invariant
            s == text@,
            s.len() <= total,
            count <= s.len(),
            rest@ == s.skip(count as int),
            digit_run(s) == count + digit_run(rest@),
            !more ==> digit_run(rest@) == 0,
        decreases s.len() - count + (if more {
            1int
        } else {
            0int
        }),
    {
        proof {
            lemma_byte_len_bounds(rest@);
        }
        if byte_length(rest) == 0 {
            more = false;
        } else {
            let (c, tail) = split_first(rest);
            if '0' <= c && c <= '9' {
                proof {
                    assert(rest@.drop_first() =~= tail@);
                    assert(s.skip(count as int).skip(1) =~= s.skip(count + 1));
                }
                count = count + 1;
                rest = tail;
            } else {
                more = false;
            }
        }
    }
    (count, rest)
}

/// Checks the text of a floating-point literal.
fn check_double(text: &str) -> (r: bool)
    ensures
        r == is_double_text(text@),
{
    let ghost s = text@;
    let (leading, rest) = skip_digits(text);
    proof {
        lemma_byte_len_bounds(rest@);
    }
    if byte_length(rest) == 0 {
        return false;
    }
    let (point, fraction) = split_first(rest);
    if point != '.' {
        return false;
    }
    let (n, tail) = skip_digits(fraction);
    if n == 0 {
        return false;
    }
    proof {
        lemma_byte_len_bounds(tail@);
        lemma_digit_run_bound(fraction@);
    }
    if byte_length(tail) == 0 {
        return true;
    }
    let (mark, after) = split_first(tail);
    if !(mark == 'e' || mark == 'E') {
        return false;
    }
    proof {
        lemma_byte_len_bounds(after@);
    }
    if byte_length(after) == 0 {
        return false;
    }
    let (sign, unsigned) = split_first(after);
    let digits = if sign == '+' || sign == '-' {
        unsigned
    } else {
        after
    };
    proof {
        assert(tail@.skip(1) =~= after@);
        assert(tail@.skip(2) =~= unsigned@);
    }
    let (m, end) = skip_digits(digits);
    proof {
        lemma_byte_len_bounds(end@);
        lemma_digit_run_bound(digits@);
    }
    m > 0 && byte_length(end) == 0
}

/// Whether an executable parse result stands for the modelled one, leaving
/// `rest` of the tokens.
pub open spec fn outcome(
    r: Result<Expr, ParseError>,
    m: PResult,
    t: Seq<TokenModel>,
    i: int,
    rest: Seq<TokenModel>,
) -> bool {
    match (r, m) {
        (Ok(e), Ok((model, j))) => e.model() == model && i < j <= t.len() && rest == t.skip(j),
        (Err(e), Err(em)) => e.model() == em,
        _ => false,
    }
}

impl<'input> Parser<'input> {
    /// Parses an expression: `parse_expression(0)`.
    #[inline]
    pub fn expression(&mut self) -> (r: Result<Expr, ParseError>)
        requires
            old(self).wf(),
        ensures
            final(self).wf(),
            final(self).source() == old(self).source(),
            outcome(
                r,
                parse_expr(old(self).pending(), old(self).source(), 0, 0),
                old(self).pending(),
                0,
                final(self).pending(),
            ),
    {
        self.parse_expression(0)
    }

    /// Parses an expression whose operators bind at least as tightly as
    /// `binding_power`, consuming its tokens.
    ///
    /// The parser recurses once per level of nesting in the expression, so the
    /// stack it needs grows with that nesting.
    pub fn parse_expression(&mut self, binding_power: u8) -> (r: Result<Expr, ParseError>)
        requires
            old(self).wf(),
        ensures
            final(self).wf(),
            final(self).source() == old(self).source(),
            outcome(
                r,
                parse_expr(old(self).pending(), old(self).source(), 0, binding_power),
                old(self).pending(),
                0,
                final(self).pending(),
            ),
    {
        let ghost t = self.pending();
        proof {
            assert(t.skip(0) =~= t);
        }
        self.parse_expr_at(Ghost(t), Ghost(0), binding_power)
    }

    pub(crate) fn parse_expr_at(&mut self, Ghost(t): Ghost<Seq<TokenModel>>, Ghost(i): Ghost<int>, bp: u8) -> (r:
        Result<Expr, ParseError>)
        requires
            old(self).wf(),
            0 <= i <= t.len(),
            old(self).pending() == t.skip(i),
        ensures
            final(self).wf(),
            final(self).source() == old(self).source(),
            outcome(r, parse_expr(t, old(self).source(), i, bp), t, i, final(self).pending()),
        decreases t.len() - i, 2nat,
    {
        let ghost src = self.source();
        let mut lhs = match self.parse_primary_at(Ghost(t), Ghost(i)) {
            Ok(e) => e,
            Err(e) => {
                return Err(e);
            },
        };
        let ghost mut cur: int = (parse_primary(t, src, i)->Ok_0).1;
        loop
            invariant
                self.wf(),
                self.source() == src,
                src == old(self).source(),
                0 <= i < cur <= t.len(),
                self.pending() == t.skip(cur),
                parse_expr(t, src, i, bp) == parse_ops(t, src, lhs.model(), cur, bp),
            decreases t.len() - cur,
        {
            let op = self.peek();
            proof {
                assert(kind_at(t.skip(cur), 0) == kind_at(t, cur));
                assert(error_at(t.skip(cur), 0, Reason::UnrecognizedOperator, src.len()) == error_at(
                    t,
                    cur,
                    Reason::UnrecognizedOperator,
                    src.len(),
                ));
            }
            if op == Kind::RParen || op == Kind::RBrace || op == Kind::Comma || op == Kind::SemiColon
                || op == Kind::Eof {
                return Ok(lhs);
            }
            let postfix = op.postfix_binding_power();
            let infix = op.infix_binding_power();
            if postfix.is_none() && infix.is_none() {
                return Err(self.error(Reason::UnrecognizedOperator));
            }
            match postfix {
                Some((left, ())) => {
                    if left < bp {
                        return Ok(lhs);
                    }
                    let _ = self.skip(op);
                    proof {
                        assert(t.skip(cur).drop_first() =~= t.skip(cur + 1));
                    }
                    lhs = Expr::PostfixOperator { op, expr: Box::new(lhs) };
                    proof {
                        cur = cur + 1;
                    }
                },
                None => {
                    let (left, right) = match infix {
                        Some(powers) => powers,
                        None => {
                            return Ok(lhs);
                        },
                    };
                    if left < bp {
                        return Ok(lhs);
                    }
                    let _ = self.skip(op);
                    proof {
                        assert(t.skip(cur).drop_first() =~= t.skip(cur + 1));
                    }
                    let rhs = match self.parse_expr_at(Ghost(t), Ghost(cur + 1), right) {
                        Ok(e) => e,
                        Err(e) => {
                            return Err(e);
                        },
                    };
                    lhs = Expr::InfixOperator { op, lhs: Box::new(lhs), rhs: Box::new(rhs) };
                    proof {
                        cur = (parse_expr(t, src, cur + 1, right)->Ok_0).1;
                    }
                },
            }
        }
    }

    /// Consumes the next token, whose kind was just peeked as `kind`.
    pub(crate) fn advance(&mut self, Ghost(t): Ghost<Seq<TokenModel>>, Ghost(i): Ghost<int>) -> (r: Token)
        requires
            old(self).wf(),
            0 <= i < t.len(),
            old(self).pending() == t.skip(i),
        ensures
            final(self).wf(),
            final(self).source() == old(self).source(),
            final(self).pending() == t.skip(i + 1),
            r@ == t[i],
            aligned(seq![r@], old(self).source()),
    {
        proof {
            assert(t.skip(i)[0] == t[i]);
            assert(t.skip(i).drop_first() =~= t.skip(i + 1));
        }
        match self.next() {
            Some(token) => {
                proof {
                    assert(seq![token@][0] == token@);
                    assert(old(self).pending()[0] == token@);
                }
                token
            },
            None => {
                proof {
                    assert(false);
                }
                Token::new(Kind::Eof, Span::new(0, 0))
            },
        }
    }

    fn parse_primary_at(&mut self, Ghost(t): Ghost<Seq<TokenModel>>, Ghost(i): Ghost<int>) -> (r:
        Result<Expr, ParseError>)
        requires
            old(self).wf(),
            0 <= i <= t.len(),
            old(self).pending() == t.skip(i),
        ensures
            final(self).wf(),
            final(self).source() == old(self).source(),
            outcome(r, parse_primary(t, old(self).source(), i), t, i, final(self).pending()),
        decreases t.len() - i, 1nat,
    {
        let ghost src = self.source();
        let kind = self.peek();
        proof {
            assert(kind_at(t.skip(i), 0) == kind_at(t, i));
            assert(error_at(t.skip(i), 0, Reason::UnknownExpressionStart, src.len()) == error_at(
                t,
                i,
                Reason::UnknownExpressionStart,
                src.len(),
            ));
        }
        match kind {
            Kind::Integer | Kind::Double | Kind::String => {
                let token = self.advance(Ghost(t), Ghost(i));
                let text = self.text(token);
                let invalid = ParseError {
                    reason: Reason::InvalidLiteral,
                    found: token.kind(),
                    span: token.span(),
                };
                let inner = match kind {
                    Kind::Integer => match parse_integer(text) {
                        Some(value) => Literal::Integer(value),
                        None => {
                            return Err(invalid);
                        },
                    },
                    Kind::Double => {
                        if !check_double(text) {
                            return Err(invalid);
                        }
                        Literal::Double(String::from_str(text))
                    },
                    _ => {
                        let n = text.unicode_len();
                        if n < 2 {
                            return Err(invalid);
                        }
                        Literal::String(String::from_str(text.substring_char(1, n - 1)))
                    },
                };
                Ok(Expr::Literal(inner))
            },
            Kind::Identifier => {
                let token = self.advance(Ghost(t), Ghost(i));
                let name = String::from_str(self.text(token));
                if !self.compare(Kind::LParen) {
                    return Ok(Expr::Identifier(name));
                }
                proof {
                    assert(kind_at(t.skip(i + 1), 0) == kind_at(t, i + 1));
                }
                let _ = self.advance(Ghost(t), Ghost(i + 1));
                match self.parse_args_at(Ghost(t), Ghost(i + 2)) {
                    Ok(args) => Ok(Expr::FunctionCall { name, args }),
                    Err(e) => Err(e),
                }
            },
            Kind::LParen => {
                let _ = self.advance(Ghost(t), Ghost(i));
                let inner = match self.parse_expr_at(Ghost(t), Ghost(i + 1), 0) {
                    Ok(e) => e,
                    Err(e) => {
                        return Err(e);
                    },
                };
                let ghost j = (parse_expr(t, src, i + 1, 0)->Ok_0).1;
                proof {
                    assert(kind_at(t.skip(j), 0) == kind_at(t, j));
                    assert(error_at(t.skip(j), 0, Reason::Expected(Kind::RParen), src.len())
                        == error_at(t, j, Reason::Expected(Kind::RParen), src.len()));
                    if j < t.len() {
                        assert(t.skip(j).drop_first() =~= t.skip(j + 1));
                    }
                }
                match self.skip(Kind::RParen) {
                    Ok(()) => Ok(inner),
                    Err(e) => Err(e),
                }
            },
            Kind::Plus | Kind::Minus | Kind::Bang => {
                let _ = self.advance(Ghost(t), Ghost(i));
                let ((), right) = kind.prefix_binding_power();
                match self.parse_expr_at(Ghost(t), Ghost(i + 1), right) {
                    Ok(operand) => Ok(Expr::PrefixOperator { op: kind, expr: Box::new(operand) }),
                    Err(e) => Err(e),
                }
            },
            _ => Err(self.error(Reason::UnknownExpressionStart)),
        }
    }

    fn parse_args_at(&mut self, Ghost(t): Ghost<Seq<TokenModel>>, Ghost(i): Ghost<int>) -> (r:
        Result<Vec<Expr>, ParseError>)
        requires
            old(self).wf(),
            0 <= i <= t.len(),
            old(self).pending() == t.skip(i),
        ensures
            final(self).wf(),
            final(self).source() == old(self).source(),
            match (r, parse_args(t, old(self).source(), i, seq![])) {
                (Ok(args), Ok((models_, j))) => models(args@, 0) == models_ && i < j <= t.len()
                    && final(self).pending() == t.skip(j),
                (Err(e), Err(em)) => e.model() == em,
                _ => false,
            },
        decreases t.len() - i, 3nat,
    {
        let ghost src = self.source();
        let mut args: Vec<Expr> = Vec::new();
        let ghost mut cur: int = i;
        loop
            invariant
                self.wf(),
                self.source() == src,
                src == old(self).source(),
                0 <= i <= cur <= t.len(),
                self.pending() == t.skip(cur),
                parse_args(t, src, i, seq![]) == parse_args(t, src, cur, models(args@, 0)),
            decreases t.len() - cur,
        {
            if self.compare(Kind::RParen) {
                proof {
                    assert(kind_at(t.skip(cur), 0) == kind_at(t, cur));
                }
                let _ = self.advance(Ghost(t), Ghost(cur));
                return Ok(args);
            }
            let arg = match self.parse_expr_at(Ghost(t), Ghost(cur), 0) {
                Ok(e) => e,
                Err(e) => {
                    return Err(e);
                },
            };
            let ghost j = (parse_expr(t, src, cur, 0)->Ok_0).1;
            proof {
                lemma_models_push(args@, arg, 0);
            }
            args.push(arg);
            let comma = self.compare(Kind::Comma);
            proof {
                assert(kind_at(t.skip(j), 0) == kind_at(t, j));
            }
            if comma {
                let _ = self.advance(Ghost(t), Ghost(j));
                proof {
                    cur = j + 1;
                }
            } else {
                proof {
                    cur = j;
                }
            }
        }
    }
}

} // verus!
