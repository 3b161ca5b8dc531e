//! Statements: `let`, assignment, `if`/`else` and blocks, whose expressions
//! the expression parser reads.
use vstd::prelude::*;

use crate::lexer::{Kind, TokenModel};
use crate::parser::ast::{stmt_models, Expr, Stmt, StmtModel};
use crate::parser::expression::{outcome, parse_expr};
use crate::parser::{
    error_at, kind_at, lemma_skip_shift, token_text, ErrorModel, ParseError, Parser, Reason,
};

verus! {

/// The outcome of parsing a statement from a token position.
pub type SResult = Result<(StmtModel, int), ErrorModel>;

/// Parses `name = value;` where `name` is the token at position `i` of `t`.
pub open spec fn parse_binding(t: Seq<TokenModel>, src: Seq<u8>, i: int) -> Result<
    (Seq<char>, crate::parser::ast::ExprModel, int),
    ErrorModel,
>
    recommends
        0 <= i < t.len(),
{
    let name = token_text(src, t[i]);
    if kind_at(t, i + 1) != Kind::Equals {
        Err(error_at(t, i + 1, Reason::Expected(Kind::Equals), src.len()))
    } else {
        match parse_expr(t, src, i + 2, 0) {
            Ok((value, j)) => if kind_at(t, j) == Kind::SemiColon {
                Ok((name, value, j + 1))
            } else {
                Err(error_at(t, j, Reason::Expected(Kind::SemiColon), src.len()))
            },
            Err(e) => Err(e),
        }
    }
}

/// Parses a statement at position `i` of `t`.
pub open spec fn parse_stmt(t: Seq<TokenModel>, src: Seq<u8>, i: int) -> SResult
    decreases t.len() - i, 1nat,
{
    if !(0 <= i < t.len()) {
        Err(error_at(t, i, Reason::UnknownStatementStart, src.len()))
    } else {
        match t[i].kind {
            Kind::KeywordLet => if kind_at(t, i + 1) != Kind::Identifier {
                Err(error_at(t, i + 1, Reason::Expected(Kind::Identifier), src.len()))
            } else {
                match parse_binding(t, src, i + 1) {
                    Ok((var, value, j)) => Ok((StmtModel::Let { var, value }, j)),
                    Err(e) => Err(e),
                }
            },
            Kind::Identifier => match parse_binding(t, src, i) {
                Ok((var, value, j)) => Ok((StmtModel::Assignment { var, value }, j)),
                Err(e) => Err(e),
            },
            Kind::KeywordIf => if kind_at(t, i + 1) != Kind::LParen {
                Err(error_at(t, i + 1, Reason::Expected(Kind::LParen), src.len()))
            } else {
                match parse_expr(t, src, i + 2, 0) {
                    Ok((cond, j)) => if kind_at(t, j) != Kind::RParen {
                        Err(error_at(t, j, Reason::Expected(Kind::RParen), src.len()))
                    } else if kind_at(t, j + 1) != Kind::LBrace || !(i < j) {
                        Err(error_at(t, j + 1, Reason::ExpectedBlock, src.len()))
                    } else {
                        match parse_block(t, src, j + 2, seq![]) {
                            Ok((body, k)) => if kind_at(t, k) != Kind::KeywordElse || !(i < k) {
                                Ok((StmtModel::If { cond, body, else_stmt: None }, k))
                            } else if kind_at(t, k + 1) != Kind::KeywordIf && kind_at(t, k + 1)
                                != Kind::LBrace {
                                Err(error_at(t, k + 1, Reason::ExpectedBlock, src.len()))
                            } else {
                                match parse_stmt(t, src, k + 1) {
                                    Ok((other, m)) => Ok(
                                        (
                                            StmtModel::If {
                                                cond,
                                                body,
                                                else_stmt: Some(Box::new(other)),
                                            },
                                            m,
                                        ),
                                    ),
                                    Err(e) => Err(e),
                                }
                            },
                            Err(e) => Err(e),
                        }
                    },
                    Err(e) => Err(e),
                }
            },
            Kind::LBrace => match parse_block(t, src, i + 1, seq![]) {
                Ok((stmts, k)) => Ok((StmtModel::Block { stmts }, k)),
                Err(e) => Err(e),
            },
            _ => Err(error_at(t, i, Reason::UnknownStatementStart, src.len())),
        }
    }
}

/// Parses the statements of a block from position `i` of `t` up to and
/// including the closing brace, after the statements `acc` already parsed.
pub open spec fn parse_block(t: Seq<TokenModel>, src: Seq<u8>, i: int, acc: Seq<StmtModel>) -> Result<
    (Seq<StmtModel>, int),
    ErrorModel,
>
    decreases t.len() - i, 2nat,
{
    if !(0 <= i < t.len()) {
        Err(error_at(t, i, Reason::UnknownStatementStart, src.len()))
    } else if t[i].kind == Kind::RBrace {
        Ok((acc, i + 1))
    } else {
        match parse_stmt(t, src, i) {
            Ok((stmt, j)) => if i < j <= t.len() {
                parse_block(t, src, j, acc.push(stmt))
            } else {
                Ok((acc, j))
            },
            Err(e) => Err(e),
        }
    }
}

/// The models of a list of statements grow with the list.
proof fn lemma_stmt_models_push(stmts: Seq<Stmt>, s: Stmt, i: nat)
    requires
        i <= stmts.len(),
    ensures
        stmt_models(stmts.push(s), i) == stmt_models(stmts, i).push(s.model()),
    decreases stmts.len() - i,
{
    if i < stmts.len() {
        lemma_stmt_models_push(stmts, s, i + 1);
        assert(stmts.push(s)[i as int] == stmts[i as int]);
        assert(stmt_models(stmts.push(s), i) =~= stmt_models(stmts, i).push(s.model()));
    } else {
        assert(stmts.push(s)[i as int] == s);
        assert(stmt_models(stmts.push(s), i + 1) =~= Seq::<StmtModel>::empty());
        assert(stmt_models(stmts, i) =~= Seq::<StmtModel>::empty());
        assert(stmt_models(stmts.push(s), i) =~= stmt_models(stmts, i).push(s.model()));
    }
}

/// Whether an executable statement result stands for the modelled one,
/// leaving `rest` of the tokens.
pub open spec fn stmt_outcome(
    r: Result<Stmt, ParseError>,
    m: SResult,
    t: Seq<TokenModel>,
    i: int,
    rest: Seq<TokenModel>,
) -> bool {
    match (r, m) {
        (Ok(s), Ok((model, j))) => s.model() == model && i < j <= t.len() && rest == t.skip(j),
        (Err(e), Err(em)) => e.model() == em,
        _ => false,
    }
}

impl<'input> Parser<'input> {
    /// Parses a statement, consuming its tokens.
    pub fn statement(&mut self) -> (r: Result<Stmt, ParseError>)
        requires
            old(self).wf(),
        ensures
            final(self).wf(),
            final(self).source() == old(self).source(),
            stmt_outcome(
                r,
                parse_stmt(old(self).pending(), old(self).source(), 0),
                old(self).pending(),
                0,
                final(self).pending(),
            ),
    {
        let ghost t = self.pending();
        proof {
            assert(t.skip(0) =~= t);
        }
        self.statement_at(Ghost(t), Ghost(0))
    }

    fn binding_at(&mut self, Ghost(t): Ghost<Seq<TokenModel>>, Ghost(i): Ghost<int>) -> (r: Result<
        (String, Expr),
        ParseError,
    >)
        requires
            old(self).wf(),
            0 <= i < t.len(),
            old(self).pending() == t.skip(i),
        ensures
            final(self).wf(),
            final(self).source() == old(self).source(),
            match (r, parse_binding(t, old(self).source(), i)) {
                (Ok((name, value)), Ok((var, model, j))) => name@ == var && value.model() == model
                    && i < j <= t.len() && final(self).pending() == t.skip(j),
                (Err(e), Err(em)) => e.model() == em,
                _ => false,
            },
    {
        let ghost src = self.source();
        let token = self.advance(Ghost(t), Ghost(i));
        let name = String::from_str(self.text(token));
        proof {
            lemma_skip_shift(t, i + 1);
        }
        match self.skip(Kind::Equals) {
            Ok(()) => {},
            Err(e) => {
                return Err(e);
            },
        }
        let value = match self.parse_expr_at(Ghost(t), Ghost(i + 2), 0) {
            Ok(e) => e,
            Err(e) => {
                return Err(e);
            },
        };
        let ghost j = (parse_expr(t, src, i + 2, 0)->Ok_0).1;
        proof {
            lemma_skip_shift(t, j);
        }
        match self.skip(Kind::SemiColon) {
            Ok(()) => Ok((name, value)),
            Err(e) => Err(e),
        }
    }

    fn statement_at(&mut self, Ghost(t): Ghost<Seq<TokenModel>>, Ghost(i): Ghost<int>) -> (r: Result<
        Stmt,
        ParseError,
    >)
        requires
            old(self).wf(),
            0 <= i <= t.len(),
            old(self).pending() == t.skip(i),
        ensures
            final(self).wf(),
            final(self).source() == old(self).source(),
            stmt_outcome(r, parse_stmt(t, old(self).source(), i), t, i, final(self).pending()),
        decreases t.len() - i, 1nat,
    {
        let ghost src = self.source();
        let kind = self.peek();
        proof {
            lemma_skip_shift(t, i);
        }
        match kind {
            Kind::KeywordLet => {
                let _ = self.advance(Ghost(t), Ghost(i));
                proof {
                    lemma_skip_shift(t, i + 1);
                }
                if !self.compare(Kind::Identifier) {
                    return Err(self.error(Reason::Expected(Kind::Identifier)));
                }
                match self.binding_at(Ghost(t), Ghost(i + 1)) {
                    Ok((var, value)) => Ok(Stmt::Let { var, value: Box::new(value) }),
                    Err(e) => Err(e),
                }
            },
            Kind::Identifier => match self.binding_at(Ghost(t), Ghost(i)) {
                Ok((var, value)) => Ok(Stmt::Assignment { var, value: Box::new(value) }),
                Err(e) => Err(e),
            },
            Kind::KeywordIf => {
                let _ = self.advance(Ghost(t), Ghost(i));
                proof {
                    lemma_skip_shift(t, i + 1);
                }
                match self.skip(Kind::LParen) {
                    Ok(()) => {},
                    Err(e) => {
                        return Err(e);
                    },
                }
                let cond = match self.parse_expr_at(Ghost(t), Ghost(i + 2), 0) {
                    Ok(e) => e,
                    Err(e) => {
                        return Err(e);
                    },
                };
                let ghost j = (parse_expr(t, src, i + 2, 0)->Ok_0).1;
                proof {
                    lemma_skip_shift(t, j);
                }
                match self.skip(Kind::RParen) {
                    Ok(()) => {},
                    Err(e) => {
                        return Err(e);
                    },
                }
                proof {
                    lemma_skip_shift(t, j + 1);
                }
                if !self.compare(Kind::LBrace) {
                    return Err(self.error(Reason::ExpectedBlock));
                }
                let _ = self.advance(Ghost(t), Ghost(j + 1));
                let body = match self.block_at(Ghost(t), Ghost(j + 2)) {
                    Ok(stmts) => stmts,
                    Err(e) => {
                        return Err(e);
                    },
                };
                let ghost k = (parse_block(t, src, j + 2, seq![])->Ok_0).1;
                proof {
                    lemma_skip_shift(t, k);
                }
                if !self.compare(Kind::KeywordElse) {
                    return Ok(Stmt::If { cond: Box::new(cond), body, else_stmt: None });
                }
                let _ = self.advance(Ghost(t), Ghost(k));
                proof {
                    lemma_skip_shift(t, k + 1);
                }
                if !(self.compare(Kind::KeywordIf) || self.compare(Kind::LBrace)) {
                    return Err(self.error(Reason::ExpectedBlock));
                }
                match self.statement_at(Ghost(t), Ghost(k + 1)) {
                    Ok(other) => Ok(
                        Stmt::If { cond: Box::new(cond), body, else_stmt: Some(Box::new(other)) },
                    ),
                    Err(e) => Err(e),
                }
            },
            Kind::LBrace => {
                let _ = self.advance(Ghost(t), Ghost(i));
                match self.block_at(Ghost(t), Ghost(i + 1)) {
                    Ok(stmts) => Ok(Stmt::Block { stmts }),
                    Err(e) => Err(e),
                }
            },
            _ => Err(self.error(Reason::UnknownStatementStart)),
        }
    }

    fn block_at(&mut self, Ghost(t): Ghost<Seq<TokenModel>>, Ghost(i): Ghost<int>) -> (r: Result<
        Vec<Stmt>,
        ParseError,
    >)
        requires
            old(self).wf(),
            0 <= i <= t.len(),
            old(self).pending() == t.skip(i),
        ensures
            final(self).wf(),
            final(self).source() == old(self).source(),
            match (r, parse_block(t, old(self).source(), i, seq![])) {
                (Ok(stmts), Ok((models_, j))) => stmt_models(stmts@, 0) == models_ && i < j
                    <= t.len() && final(self).pending() == t.skip(j),
                (Err(e), Err(em)) => e.model() == em,
                _ => false,
            },
        decreases t.len() - i, 2nat,
    {
        let ghost src = self.source();
        let mut stmts: Vec<Stmt> = Vec::new();
        let ghost mut cur: int = i;
        loop
            invariant
                self.wf(),
                self.source() == src,
                src == old(self).source(),
                0 <= i <= cur <= t.len(),
                self.pending() == t.skip(cur),
                parse_block(t, src, i, seq![]) == parse_block(t, src, cur, stmt_models(stmts@, 0)),
            decreases t.len() - cur,
        {
            proof {
                lemma_skip_shift(t, cur);
            }
            if self.compare(Kind::RBrace) {
                let _ = self.advance(Ghost(t), Ghost(cur));
                return Ok(stmts);
            }
            let stmt = match self.statement_at(Ghost(t), Ghost(cur)) {
                Ok(s) => s,
                Err(e) => {
                    return Err(e);
                },
            };
            proof {
                lemma_stmt_models_push(stmts@, stmt, 0);
                cur = (parse_stmt(t, src, cur)->Ok_0).1;
            }
            stmts.push(stmt);
        }
    }
}

} // verus!
