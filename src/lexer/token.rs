//! Tokens: a classification together with the byte range it covers.
use vstd::prelude::*;
use vstd::string::StringSliceAdditionalSpecFns;
use vstd::utf8::*;

use super::text::lemma_boundary_shift;

verus! {

/// The classification of a token.
#[derive(Copy, Clone, Debug, Eq, Hash, PartialEq, Structural)]
pub enum Kind {
    // Single characters
    Plus,
    Minus,
    Times,
    Divide,
    Power,
    Equals,
    Dot,
    Comma,
    Underscore,
    Bang,
    Ampersand,
    Pipe,
    Colon,
    SemiColon,
    // Brackets
    LAngle,
    RAngle,
    LSquare,
    RSquare,
    LBrace,
    RBrace,
    LParen,
    RParen,
    // Multi-character
    String,
    Comment,
    Integer,
    Double,
    Identifier,
    // Keywords
    KeywordLet,
    KeywordFn,
    KeywordStruct,
    KeywordIf,
    KeywordElse,
    // Operators
    And,
    Or,
    Eqq,
    Neq,
    Geq,
    Leq,
    // Whitespace
    Whitespace,
    // End of file
    Eof,
    // Error
    Error,
}

impl Kind {
    /// The text that names this kind in messages.
    pub open spec fn label(self) -> Seq<char> {
        match self {
            Kind::Plus => "+"@,
            Kind::Minus => "-"@,
            Kind::Times => "*"@,
            Kind::Divide => "/"@,
            Kind::Power => "^"@,
            Kind::Equals => "="@,
            Kind::Dot => "."@,
            Kind::Comma => ","@,
            Kind::Underscore => "_"@,
            Kind::Bang => "!"@,
            Kind::Ampersand => "&"@,
            Kind::Pipe => "|"@,
            Kind::Colon => ":"@,
            Kind::SemiColon => ";"@,
            Kind::LAngle => "<"@,
            Kind::RAngle => ">"@,
            Kind::LSquare => "["@,
            Kind::RSquare => "]"@,
            Kind::LBrace => "{"@,
            Kind::RBrace => "}"@,
            Kind::LParen => "("@,
            Kind::RParen => ")"@,
            Kind::String => "String"@,
            Kind::Comment => "// Comment"@,
            Kind::Integer => "Integer"@,
            Kind::Double => "Double"@,
            Kind::Identifier => "Identifier"@,
            Kind::KeywordLet => "let"@,
            Kind::KeywordFn => "fn"@,
            Kind::KeywordStruct => "struct"@,
            Kind::KeywordIf => "if"@,
            Kind::KeywordElse => "else"@,
            Kind::And => "&&"@,
            Kind::Or => "||"@,
            Kind::Eqq => "=="@,
            Kind::Neq => "!="@,
            Kind::Geq => ">="@,
            Kind::Leq => "<="@,
            Kind::Whitespace => "<WS>"@,
            Kind::Eof => "<EOF>"@,
            Kind::Error => "<?>"@,
        }
    }

    /// Returns the text that names this kind in messages.
    pub fn to_string(&self) -> (r: String)
        ensures
            r@ == self.label(),
    {
        let text = match self {
            Kind::Plus => "+",
            Kind::Minus => "-",
            Kind::Times => "*",
            Kind::Divide => "/",
            Kind::Power => "^",
            Kind::Equals => "=",
            Kind::Dot => ".",
            Kind::Comma => ",",
            Kind::Underscore => "_",
            Kind::Bang => "!",
            Kind::Ampersand => "&",
            Kind::Pipe => "|",
            Kind::Colon => ":",
            Kind::SemiColon => ";",
            Kind::LAngle => "<",
            Kind::RAngle => ">",
            Kind::LSquare => "[",
            Kind::RSquare => "]",
            Kind::LBrace => "{",
            Kind::RBrace => "}",
            Kind::LParen => "(",
            Kind::RParen => ")",
            Kind::String => "String",
            Kind::Comment => "// Comment",
            Kind::Integer => "Integer",
            Kind::Double => "Double",
            Kind::Identifier => "Identifier",
            Kind::KeywordLet => "let",
            Kind::KeywordFn => "fn",
            Kind::KeywordStruct => "struct",
            Kind::KeywordIf => "if",
            Kind::KeywordElse => "else",
            Kind::And => "&&",
            Kind::Or => "||",
            Kind::Eqq => "==",
            Kind::Neq => "!=",
            Kind::Geq => ">=",
            Kind::Leq => "<=",
            Kind::Whitespace => "<WS>",
            Kind::Eof => "<EOF>",
            Kind::Error => "<?>",
        };
        String::from_str(text)
    }
}

/// A half-open range of byte offsets into the source text.
#[derive(Copy, Clone, Debug, Eq, Hash, PartialEq)]
pub struct Span {
    /// The lower bound of the range (inclusive).
    start: usize,
    /// The upper bound of the range (exclusive).
    end: usize,
}

impl View for Span {
    type V = (nat, nat);

    closed spec fn view(&self) -> (nat, nat) {
        (self.start as nat, self.end as nat)
    }
}

impl Span {
    #[verifier::type_invariant]
    spec fn ordered(&self) -> bool {
        self.start <= self.end
    }

    /// Constructs a new `Span` from a start and end offset.
    pub fn new(start: usize, end: usize) -> (r: Self)
        requires
            start <= end,
        ensures
            r@ == (start as nat, end as nat),
    {
        Self { start, end }
    }

    /// Returns the start offset of the span.
    pub fn start(&self) -> (r: usize)
        ensures
            r == self@.0,
    {
        self.start
    }

    /// Returns the end offset of the span.
    pub fn end(&self) -> (r: usize)
        ensures
            r == self@.1,
    {
        self.end
    }

    /// Returns the length of the span in bytes.
    pub fn len(&self) -> (r: usize)
        ensures
            r == self@.1 - self@.0,
    {
        proof {
            use_type_invariant(self);
        }
        self.end - self.start
    }

    /// Returns `true` if the span has a length of zero bytes.
    pub fn is_empty(&self) -> (r: bool)
        ensures
            r == (self@.0 == self@.1),
    {
        self.len() == 0
    }
}

/// What a token stands for: its kind and the byte range it covers.
pub struct TokenModel {
    pub kind: Kind,
    pub start: nat,
    pub end: nat,
}

/// Individual units produced by the lexer.
///
/// Each `Token` contains a token `Kind` and a `Span`. Given the input string,
/// the token can return the text it represents via the span.
#[derive(Copy, Clone, Debug, Eq, Hash, PartialEq)]
pub struct Token {
    /// The token kind, or variant, as defined on the `Kind` enum.
    kind: Kind,
    span: Span,
}

impl View for Token {
    type V = TokenModel;

    closed spec fn view(&self) -> TokenModel {
        TokenModel { kind: self.kind, start: self.span@.0, end: self.span@.1 }
    }
}

impl Token {
    /// Constructs a `Token` from a kind and its corresponding span.
    pub fn new(kind: Kind, span: Span) -> (r: Self)
        ensures
            r@ == (TokenModel { kind, start: span@.0, end: span@.1 }),
    {
        Self { kind, span }
    }

    /// Returns the `Kind` of the token.
    pub fn kind(&self) -> (r: Kind)
        ensures
            r == self@.kind,
    {
        self.kind
    }

    /// Returns the `Span` of the token.
    pub fn span(&self) -> (r: Span)
        ensures
            r@ == (self@.start, self@.end),
    {
        self.span
    }

    /// Returns the token as text by indexing the input source with its span.
    pub fn text<'input>(&self, input: &'input str) -> (r: &'input str)
        requires
            self@.end <= input.spec_bytes().len(),
            is_char_boundary(input.spec_bytes(), self@.start as int),
            is_char_boundary(input.spec_bytes(), self@.end as int),
        ensures
            r.spec_bytes() == input.spec_bytes().subrange(self@.start as int, self@.end as int),
    {
        let start = self.span.start;
        let end = self.span.end;
        proof {
            use_type_invariant(self.span);
        }
        let (_, tail) = input.split_at(start);
        proof {
            encode_utf8_valid_utf8(input@);
            lemma_boundary_shift(input.spec_bytes(), start as int, end as int);
        }
        let (head, _) = tail.split_at(end - start);
        head
    }

    /// Returns the name of the token's kind.
    pub fn to_string(&self) -> (r: String)
        ensures
            r@ == self@.kind.label(),
    {
        self.kind.to_string()
    }

    /// Returns the length of the token's span.
    pub fn len(&self) -> (r: usize)
        ensures
            r == self@.end - self@.start,
    {
        self.span.len()
    }

    /// Returns true if the token's span comprises an empty range.
    pub fn is_empty(&self) -> (r: bool)
        ensures
            r == (self@.start == self@.end),
    {
        self.span.is_empty()
    }
}

} // verus!
