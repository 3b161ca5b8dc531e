//! This module contains transient's core parsing logic.
use vstd::prelude::*;
use vstd::string::StringSliceAdditionalSpecFns;
use vstd::utf8::*;

use crate::lexer::text::{byte_length, lemma_boundary_shift};
use crate::lexer::{tokens_of, Kind, Lexer, Span, Token, TokenModel};

pub mod ast;
pub mod expression;
pub mod hierarchy;
pub mod operator;



verus! {

/// Whether tokens of this kind are left out of what the parser sees.
pub open spec fn is_trivia(kind: Kind) -> bool {
    kind == Kind::Whitespace || kind == Kind::Comment
}

/// The tokens of `toks` that are neither whitespace nor comments, in order.
pub open spec fn significant(toks: Seq<TokenModel>) -> Seq<TokenModel>
    decreases toks.len(),
{
    if toks.len() == 0 {
        seq![]
    } else if is_trivia(toks[0].kind) {
        significant(toks.drop_first())
    } else {
        seq![toks[0]] + significant(toks.drop_first())
    }
}

/// Every token of `toks` covers whole characters of the encoded source `src`.
pub open spec fn aligned(toks: Seq<TokenModel>, src: Seq<u8>) -> bool {
    forall|i: int|
        0 <= i < toks.len() ==> (#[trigger] toks[i]).start <= toks[i].end <= src.len()
            && is_char_boundary(src, toks[i].start as int) && is_char_boundary(
            src,
            toks[i].end as int,
        )
}

/// The text of a token of the encoded source `src`.
pub open spec fn token_text(src: Seq<u8>, tok: TokenModel) -> Seq<char> {
    decode_utf8(src.subrange(tok.start as int, tok.end as int))
}

/// Leaving out tokens keeps the rest aligned.
proof fn lemma_significant_aligned(toks: Seq<TokenModel>, src: Seq<u8>)
    requires
        aligned(toks, src),
    ensures
        aligned(significant(toks), src),
    decreases toks.len(),
{
    if toks.len() > 0 {
        assert(aligned(toks.drop_first(), src)) by {
            assert forall|i: int| 0 <= i < toks.drop_first().len() implies #[trigger] toks.drop_first()[i]
                == toks[i + 1] by {}
        }
        lemma_significant_aligned(toks.drop_first(), src);
        let rest = significant(toks.drop_first());
        if !is_trivia(toks[0].kind) {
            assert forall|i: int| 0 < i < rest.len() + 1 implies #[trigger] (seq![toks[0]]
                + rest)[i] == rest[i - 1] by {}
        }
    }
}

/// What went wrong, in a parse error.
#[derive(Copy, Clone, Debug, PartialEq, Eq, Structural)]
pub enum Reason {
    /// A token of the given kind was required.
    Expected(Kind),
    /// No expression can start with the token found.
    UnknownExpressionStart,
    /// The token found cannot follow an expression.
    UnrecognizedOperator,
    /// The text of the numeric literal found does not denote a value.
    InvalidLiteral,
    /// No statement can start with the token found.
    UnknownStatementStart,
    /// A block (or, after `else`, an `if`) was required.
    ExpectedBlock,
}

/// A syntax error: why parsing stopped, the kind of the offending token and
/// where it stands in the source.
#[derive(Copy, Clone, Debug, PartialEq, Eq)]
pub struct ParseError {
    pub reason: Reason,
    pub found: Kind,
    pub span: Span,
}

/// What a parse error stands for.
pub struct ErrorModel {
    pub reason: Reason,
    pub found: Kind,
    pub start: nat,
    pub end: nat,
}

impl ParseError {
    pub open spec fn model(&self) -> ErrorModel {
        ErrorModel {
            reason: self.reason,
            found: self.found,
            start: self.span@.0,
            end: self.span@.1,
        }
    }
}

/// The kind of the `i`-th token of `t`, or end of input past its end.
pub open spec fn kind_at(t: Seq<TokenModel>, i: int) -> Kind {
    if 0 <= i < t.len() {
        t[i].kind
    } else {
        Kind::Eof
    }
}

/// An error about the `i`-th token of `t`, or about the end of a source of
/// `n` bytes past its end.
pub open spec fn error_at(t: Seq<TokenModel>, i: int, reason: Reason, n: nat) -> ErrorModel {
    if 0 <= i < t.len() {
        ErrorModel { reason, found: t[i].kind, start: t[i].start, end: t[i].end }
    } else {
        ErrorModel { reason, found: Kind::Eof, start: n, end: n }
    }
}

/// What is left of `t` once its first token, if any, is consumed.
pub open spec fn consumed(t: Seq<TokenModel>) -> Seq<TokenModel> {
    if t.len() > 0 {
        t.drop_first()
    } else {
        t
    }
}

/// Looking at the tokens of `t` from position `k` on is looking at `t` at `k`.
pub proof fn lemma_skip_shift(t: Seq<TokenModel>, k: int)
    requires
        0 <= k <= t.len(),
    ensures
        kind_at(t.skip(k), 0) == kind_at(t, k),
        forall|reason: Reason, n: nat| #[trigger] error_at(t.skip(k), 0, reason, n) == error_at(t, k, reason, n),
        k < t.len() ==> t.skip(k).drop_first() == t.skip(k + 1) && consumed(t.skip(k)) == t.skip(
            k + 1,
        ),
{
    if k < t.len() {
        assert(t.skip(k)[0] == t[k]);
        assert(t.skip(k).drop_first() =~= t.skip(k + 1));
    }
}

/// Iterator for producing tokens with whitespace and comments stripped out.
///
/// `TokenIter` wraps the `Lexer` and filters out any whitespace or comment
/// token kinds.
pub struct TokenIter<'input> {
    lexer: Lexer<'input>,
}

impl<'input> TokenIter<'input> {
    pub closed spec fn wf(&self) -> bool {
        self.lexer.wf()
    }

    /// The source text.
    pub closed spec fn source(&self) -> Seq<char> {
        self.lexer.source()
    }

    /// The tokens still to come.
    pub closed spec fn pending(&self) -> Seq<TokenModel> {
        significant(self.lexer.remaining())
    }

    /// The tokens still to come lie on character boundaries of the source.
    pub proof fn lemma_pending_aligned(&self)
        requires
            self.wf(),
        ensures
            aligned(self.pending(), encode_utf8(self.source())),
    {
        self.lexer.lemma_remaining_aligned();
        lemma_significant_aligned(self.lexer.remaining(), encode_utf8(self.source()));
    }

    pub fn new(input: &'input str) -> (r: Self)
        ensures
            r.wf(),
            r.source() == input@,
            r.pending() == significant(tokens_of(input@)),
    {
        Self { lexer: Lexer::new(input) }
    }

    /// Produces the next token that is neither whitespace nor a comment.
    pub fn next(&mut self) -> (r: Option<Token>)
        requires
            old(self).wf(),
        ensures
            final(self).wf(),
            final(self).source() == old(self).source(),
            r is None ==> old(self).pending() == Seq::<TokenModel>::empty()
                && final(self).pending() == Seq::<TokenModel>::empty(),
            r matches Some(t) ==> old(self).pending() == seq![t@] + final(self).pending(),
    {
        loop
            invariant
                self.wf(),
                self.source() == old(self).source(),
                self.pending() == old(self).pending(),
            decreases self.lexer.remaining().len(),
        {
            let ghost before = self.lexer.remaining();
            match self.lexer.next() {
                Some(token) => {
                    assert((seq![token@] + self.lexer.remaining()).drop_first()
                        =~= self.lexer.remaining());
                    if !(token.kind() == Kind::Whitespace || token.kind() == Kind::Comment) {
                        return Some(token);
                    }
                },
                None => {
                    return None;
                },
            }
        }
    }
}

/// Left-to-right, leftmost derivation parser with one token of lookahead.
pub struct Parser<'input> {
    input: &'input str,
    tokens: TokenIter<'input>,
    lookahead: Option<Token>,
}

impl<'input> Parser<'input> {
    pub closed spec fn wf(&self) -> bool {
        &&& self.tokens.wf()
        &&& self.tokens.source() == self.input@
        &&& aligned(self.pending(), self.input.spec_bytes())
    }

    /// The encoded source text.
    pub closed spec fn source(&self) -> Seq<u8> {
        self.input.spec_bytes()
    }

    /// The tokens that the parser has yet to consume.
    pub closed spec fn pending(&self) -> Seq<TokenModel> {
        match self.lookahead {
            Some(t) => seq![t@] + self.tokens.pending(),
            None => self.tokens.pending(),
        }
    }

    pub fn new(input: &'input str) -> (r: Self)
        ensures
            r.wf(),
            r.source() == encode_utf8(input@),
            r.pending() == significant(tokens_of(input@)),
    {
        let tokens = TokenIter::new(input);
        proof {
            tokens.lemma_pending_aligned();
        }
        Self { input, tokens, lookahead: None }
    }

    /// Gets the source text of a token.
    pub fn text(&self, token: Token) -> (r: &'input str)
        requires
            self.wf(),
            aligned(seq![token@], self.source()),
        ensures
            r@ == token_text(self.source(), token@),
    {
        proof {
            assert(seq![token@][0] == token@);
        }
        let r = token.text(self.input);
        proof {
            encode_utf8_decode_utf8(r@);
        }
        r
    }

    /// Fills the lookahead from the token stream, if it has a token left.
    fn fill(&mut self)
        requires
            old(self).wf(),
        ensures
            final(self).wf(),
            final(self).source() == old(self).source(),
            final(self).pending() == old(self).pending(),
            final(self).lookahead is None ==> final(self).pending() == Seq::<TokenModel>::empty(),
            final(self).lookahead matches Some(t) ==> final(self).pending()[0] == t@,
    {
        if self.lookahead.is_none() {
            self.lookahead = self.tokens.next();
        }
    }

    /// Attempts to look ahead to determine what the next token `Kind` is.
    pub fn peek(&mut self) -> (r: Kind)
        requires
            old(self).wf(),
        ensures
            final(self).wf(),
            final(self).source() == old(self).source(),
            final(self).pending() == old(self).pending(),
            r == kind_at(old(self).pending(), 0),
    {
        self.fill();
        match self.lookahead {
            Some(t) => t.kind(),
            None => Kind::Eof,
        }
    }

    /// Checks whether the next token is a particular `Kind` of token.
    pub fn compare(&mut self, kind: Kind) -> (r: bool)
        requires
            old(self).wf(),
        ensures
            final(self).wf(),
            final(self).source() == old(self).source(),
            final(self).pending() == old(self).pending(),
            r == (kind_at(old(self).pending(), 0) == kind),
    {
        self.peek() == kind
    }

    /// Gets the next token from the lexer.
    pub fn next(&mut self) -> (r: Option<Token>)
        requires
            old(self).wf(),
        ensures
            final(self).wf(),
            final(self).source() == old(self).source(),
            r is None ==> old(self).pending() == Seq::<TokenModel>::empty()
                && final(self).pending() == Seq::<TokenModel>::empty(),
            r matches Some(t) ==> old(self).pending().len() > 0 && t@ == old(self).pending()[0]
                && final(self).pending() == old(self).pending().drop_first(),
    {
        self.fill();
        let r = self.lookahead.take();
        proof {
            let p = old(self).pending();
            if p.len() > 0 {
                assert forall|i: int| 0 <= i < p.drop_first().len() implies #[trigger] p.drop_first()[i]
                    == p[i + 1] by {}
                assert(p.drop_first() =~= self.pending());
            }
        }
        r
    }

    /// An error about the next token.
    pub(crate) fn error(&mut self, reason: Reason) -> (r: ParseError)
        requires
            old(self).wf(),
        ensures
            final(self).wf(),
            final(self).source() == old(self).source(),
            final(self).pending() == old(self).pending(),
            r.model() == error_at(old(self).pending(), 0, reason, old(self).source().len()),
    {
        self.fill();
        match self.lookahead {
            Some(t) => {
                proof {
                    assert(self.pending()[0] == t@);
                }
                ParseError { reason, found: t.kind(), span: t.span() }
            },
            None => {
                let n = byte_length(self.input);
                ParseError { reason, found: Kind::Eof, span: Span::new(n, n) }
            },
        }
    }

    /// Consumes the next token, which must be of the `expected` kind; fails
    /// when no token is left.
    pub fn skip(&mut self, expected: Kind) -> (r: Result<(), ParseError>)
        requires
            old(self).wf(),
        ensures
            final(self).wf(),
            final(self).source() == old(self).source(),
            r is Ok <==> old(self).pending().len() > 0 && old(self).pending()[0].kind == expected,
            r is Ok ==> final(self).pending() == old(self).pending().drop_first(),
            r matches Err(e) ==> final(self).pending() == old(self).pending() && e.model()
                == error_at(old(self).pending(), 0, Reason::Expected(expected), old(self).source().len()),
    {
        self.fill();
        let taken = match self.lookahead {
            Some(t) => t.kind() == expected,
            None => false,
        };
        if taken {
            let _ = self.next();
            Ok(())
        } else {
            Err(self.error(Reason::Expected(expected)))
        }
    }
}

} // verus!
