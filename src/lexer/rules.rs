//! Lexer rules that define valid or accepted syntax.
use regex::Regex;
use vstd::prelude::*;
use vstd::string::StringSliceAdditionalSpecFns;
use vstd::string::StrSliceExecFns;
use vstd::utf8::*;

use super::text::{
    byte_len, byte_length, is_ascii_char, lemma_byte_len_ascii, lemma_byte_len_bounds,
    lemma_byte_len_single, lemma_byte_len_split,
};
use super::token::Kind;

verus! {

/// A compiled regular expression of the `regex` crate, carried opaquely.
#[verifier::external_type_specification]
#[verifier::external_body]
pub struct ExRegex(Regex);

/// Where the leftmost match of the regular expression `pattern` in `haystack`
/// ends, as a byte offset; `None` where the pattern does not compile or does
/// not match.
pub uninterp spec fn pattern_match_end(pattern: Seq<char>, haystack: Seq<char>) -> Option<usize>;

/// Pattern of a string literal: quotes around escaped quotes or backslashes
/// and any other characters.
pub const STRING_PATTERN: &'static str = r#"^"((\\"|\\\\)|[^\\"])*""#;

/// Pattern of a line comment, including the newline that ends it.
pub const COMMENT_PATTERN: &'static str = r#"^//[^\n]*\n"#;

/// Pattern of a floating-point literal with an optional exponent.
pub const DOUBLE_PATTERN: &'static str = r#"^((\d+\.\d+)|(\.\d+))([eE][-+]?\d+)?"#;

/// Pattern of an integer literal.
pub const INTEGER_PATTERN: &'static str = r#"^(0|\d+)"#;

/// Pattern of an identifier.
pub const IDENTIFIER_PATTERN: &'static str = r#"^([a-zA-Z]|_)([a-zA-Z]|_|\d)*"#;

/// A regular expression kept together with the pattern it was compiled from.
///
/// Its fields are private and `compile` is the only place that fills them, so
/// that the regular expression is always the one compiled from `source`.
pub struct Pattern {
    source: &'static str,
    regex: Option<Regex>,
}

impl View for Pattern {
    type V = Seq<char>;

    closed spec fn view(&self) -> Seq<char> {
        self.source@
    }
}

/// Relies on `regex::Regex::new` to compile `source`, so that matching does
/// not compile it again; a pattern that does not compile is kept without a
/// regular expression. Each lexer compiles the table's patterns when it is
/// made.
#[verifier::external_body]
fn compile(source: &'static str) -> (r: Pattern)
    ensures
        r@ == source@,
{
    Pattern { source, regex: Regex::new(source).ok() }
}

/// Relies on `regex::Regex::find` and `regex::Match::end`: the byte offset at
/// which the leftmost match ends, which lies on a character boundary of the
/// haystack.
#[verifier::external_body]
fn find_end(pattern: &Pattern, haystack: &str) -> (r: Option<usize>)
    ensures
        r == pattern_match_end(pattern@, haystack@),
        r matches Some(n) ==> n <= haystack.spec_bytes().len() && is_char_boundary(
            haystack.spec_bytes(),
            n as int,
        ),
{
    match &pattern.regex {
        Some(regex) => match regex.find(haystack) {
            Some(found) => Some(found.end()),
            None => None,
        },
        None => None,
    }
}

/// How a rule recognises the start of the remaining input.
pub enum Matcher {
    /// One given character.
    Single(char),
    /// Two given characters.
    Pair(char, char),
    /// A given word, matched as a prefix.
    Keyword(&'static str),
    /// A regular expression anchored at the start.
    Pattern(Pattern),
}

/// What a matcher stands for.
pub enum MatcherModel {
    Single(char),
    Pair(char, char),
    Keyword(Seq<char>),
    Pattern(Seq<char>),
}

/// Defines a single rule for the lexer.
pub struct Rule {
    pub kind: Kind,
    pub matcher: Matcher,
}

/// What a rule stands for.
pub struct RuleModel {
    pub kind: Kind,
    pub matcher: MatcherModel,
}

impl View for Rule {
    type V = RuleModel;

    open spec fn view(&self) -> RuleModel {
        RuleModel {
            kind: self.kind,
            matcher: match self.matcher {
                Matcher::Single(c) => MatcherModel::Single(c),
                Matcher::Pair(a, b) => MatcherModel::Pair(a, b),
                Matcher::Keyword(w) => MatcherModel::Keyword(w@),
                Matcher::Pattern(p) => MatcherModel::Pattern(p@),
            },
        }
    }
}

/// The number of bytes that a matcher consumes from the start of `s`, if it
/// matches there. A regular expression that matches nothing but the empty
/// string does not count as a match.
pub open spec fn matcher_len(m: MatcherModel, s: Seq<char>) -> Option<nat> {
    match m {
        MatcherModel::Single(c) => if s.len() > 0 && s[0] == c {
            Some(1)
        } else {
            None
        },
        MatcherModel::Pair(a, b) => if s.len() >= 2 && s[0] == a && s[1] == b {
            Some(2)
        } else {
            None
        },
        MatcherModel::Keyword(w) => if w.len() <= s.len() && s.take(w.len() as int) == w {
            Some(byte_len(w))
        } else {
            None
        },
        MatcherModel::Pattern(p) => match pattern_match_end(p, s) {
            Some(n) => if 0 < n && n <= byte_len(s) && is_char_boundary(encode_utf8(s), n as int) {
                Some(n as nat)
            } else {
                None
            },
            None => None,
        },
    }
}

/// A matcher that only ever consumes whole ASCII characters by count.
pub open spec fn ascii_matcher(m: MatcherModel) -> bool {
    match m {
        MatcherModel::Single(c) => is_ascii_char(c),
        MatcherModel::Pair(a, b) => is_ascii_char(a) && is_ascii_char(b),
        MatcherModel::Keyword(w) => w.len() > 0 && forall|i: int|
            0 <= i < w.len() ==> is_ascii_char(#[trigger] w[i]),
        MatcherModel::Pattern(_) => true,
    }
}

/// Match against single-character token kinds, returning `None` on failure.
fn match_single_char(input: &str, c: char) -> (r: Option<usize>)
    ensures
        r == (if input@.len() > 0 && input@[0] == c {
            Some(1usize)
        } else {
            None
        }),
{
    proof {
        lemma_byte_len_bounds(input@);
    }
    if byte_length(input) > 0 && input.get_char(0) == c {
        Some(1)
    } else {
        None
    }
}

/// Match against multi-character token kinds, returning `None` on failure.
fn match_multi_char(input: &str, first: char, second: char) -> (r: Option<usize>)
    requires
        is_ascii_char(first),
    ensures
        r == (if input@.len() >= 2 && input@[0] == first && input@[1] == second {
            Some(2usize)
        } else {
            None
        }),
{
    let s = Ghost(input@);
    proof {
        lemma_byte_len_bounds(s@);
    }
    if byte_length(input) >= 2 && input.get_char(0) == first {
        proof {
            lemma_byte_len_split(s@, 1);
            assert(s@.take(1) =~= seq![first]);
            lemma_byte_len_single(first);
            lemma_byte_len_bounds(s@.skip(1));
        }
        if input.get_char(1) == second {
            return Some(2);
        }
    }
    None
}

/// Match against keyword token kinds, returning `None` on failure.
fn match_keyword(input: &str, keyword: &str) -> (r: Option<usize>)
    requires
        forall|i: int| 0 <= i < keyword@.len() ==> is_ascii_char(#[trigger] keyword@[i]),
    ensures
        r is Some <==> keyword@.len() <= input@.len() && input@.take(keyword@.len() as int)
            == keyword@,
        r matches Some(n) ==> n == byte_len(keyword@),
{
    let s = Ghost(input@);
    let w = Ghost(keyword@);
    proof {
        lemma_byte_len_ascii(w@);
        lemma_byte_len_bounds(s@);
    }
    let n = byte_length(keyword);
    let mut i: usize = 0;
    while i < n
        invariant
            n == w@.len(),
            s@ == input@,
            w@ == keyword@,
            i <= n,
            i <= s@.len(),
            s@.take(i as int) == w@.take(i as int),
            forall|j: int| 0 <= j < w@.len() ==> is_ascii_char(#[trigger] w@[j]),
        decreases n - i,
    {
        proof {
            assert forall|j: int| 0 <= j < s@.take(i as int).len() implies is_ascii_char(
                #[trigger] s@.take(i as int)[j],
            ) by {
                assert(s@.take(i as int)[j] == w@.take(i as int)[j]);
            }
            lemma_byte_len_ascii(s@.take(i as int));
            lemma_byte_len_split(s@, i as int);
            lemma_byte_len_bounds(s@.skip(i as int));
        }
        if byte_length(input) <= i {
            proof {
                assert(s@.skip(i as int).len() == 0);
                lemma_byte_len_bounds(s@);
            }
            return None;
        }
        if input.get_char(i) != keyword.get_char(i) {
            proof {
                if w@.len() <= s@.len() {
                    assert(s@.take(w@.len() as int)[i as int] == s@[i as int]);
                }
            }
            return None;
        }
        proof {
            assert(s@.take(i + 1) =~= w@.take(i + 1)) by {
                assert(s@.take(i + 1) =~= s@.take(i as int).push(s@[i as int]));
                assert(w@.take(i + 1) =~= w@.take(i as int).push(w@[i as int]));
            }
        }
        i = i + 1;
    }
    proof {
        assert(w@.take(n as int) =~= w@);
    }
    Some(n)
}

/// Match against a regular expression, returning `None` on failure or on a
/// match of nothing.
fn match_regex(input: &str, pattern: &Pattern) -> (r: Option<usize>)
    ensures
        r is Some <==> matcher_len(MatcherModel::Pattern(pattern@), input@) is Some,
        r matches Some(n) ==> matcher_len(MatcherModel::Pattern(pattern@), input@) == Some(
            n as nat,
        ),
{
    match find_end(pattern, input) {
        Some(n) => if n > 0 {
            Some(n)
        } else {
            None
        },
        None => None,
    }
}

impl Rule {
    /// The number of bytes that this rule consumes from the start of `input`,
    /// if it matches there.
    pub fn matches(&self, input: &str) -> (r: Option<usize>)
        requires
            ascii_matcher(self@.matcher),
        ensures
            r is Some <==> matcher_len(self@.matcher, input@) is Some,
            r matches Some(n) ==> matcher_len(self@.matcher, input@) == Some(n as nat),
    {
        match &self.matcher {
            Matcher::Single(c) => match_single_char(input, *c),
            Matcher::Pair(a, b) => match_multi_char(input, *a, *b),
            Matcher::Keyword(w) => {
                proof {
                    lemma_byte_len_ascii(w@);
                }
                match_keyword(input, w)
            },
            Matcher::Pattern(p) => match_regex(input, p),
        }
    }
}

/// The rules of the lexer, in order of priority: of two rules that match
/// equally long, the earlier wins. So a keyword is not an identifier, and a
/// lone `_` is an `Underscore` rather than an identifier.
pub open spec fn rule_table() -> Seq<RuleModel> {
    seq![
        // Single characters
        RuleModel { kind: Kind::Bang, matcher: MatcherModel::Single('!') },
        RuleModel { kind: Kind::Equals, matcher: MatcherModel::Single('=') },
        RuleModel { kind: Kind::Divide, matcher: MatcherModel::Single('/') },
        RuleModel { kind: Kind::Underscore, matcher: MatcherModel::Single('_') },
        RuleModel { kind: Kind::LAngle, matcher: MatcherModel::Single('<') },
        RuleModel { kind: Kind::RAngle, matcher: MatcherModel::Single('>') },
        // Multiple characters
        RuleModel { kind: Kind::Eqq, matcher: MatcherModel::Pair('=', '=') },
        RuleModel { kind: Kind::Neq, matcher: MatcherModel::Pair('!', '=') },
        RuleModel { kind: Kind::And, matcher: MatcherModel::Pair('&', '&') },
        RuleModel { kind: Kind::Or, matcher: MatcherModel::Pair('|', '|') },
        RuleModel { kind: Kind::Leq, matcher: MatcherModel::Pair('<', '=') },
        RuleModel { kind: Kind::Geq, matcher: MatcherModel::Pair('>', '=') },
        // Keywords
        RuleModel { kind: Kind::KeywordLet, matcher: MatcherModel::Keyword("let"@) },
        RuleModel { kind: Kind::KeywordFn, matcher: MatcherModel::Keyword("fn"@) },
        RuleModel { kind: Kind::KeywordStruct, matcher: MatcherModel::Keyword("struct"@) },
        RuleModel { kind: Kind::KeywordIf, matcher: MatcherModel::Keyword("if"@) },
        RuleModel { kind: Kind::KeywordElse, matcher: MatcherModel::Keyword("else"@) },
        // Patterns (regular expressions)
        RuleModel { kind: Kind::String, matcher: MatcherModel::Pattern(STRING_PATTERN@) },
        RuleModel { kind: Kind::Comment, matcher: MatcherModel::Pattern(COMMENT_PATTERN@) },
        RuleModel { kind: Kind::Integer, matcher: MatcherModel::Pattern(INTEGER_PATTERN@) },
        RuleModel { kind: Kind::Double, matcher: MatcherModel::Pattern(DOUBLE_PATTERN@) },
        RuleModel { kind: Kind::Identifier, matcher: MatcherModel::Pattern(IDENTIFIER_PATTERN@) },
    ]
}

/// Every rule of the table but the patterns consumes whole ASCII characters,
/// and no rule yields the end-of-input kind.
pub proof fn lemma_rule_table_ascii()
    ensures
        forall|i: int| 0 <= i < rule_table().len() ==> ascii_matcher(#[trigger] rule_table()[i].matcher),
        forall|i: int| 0 <= i < rule_table().len() ==> #[trigger] rule_table()[i].kind != Kind::Eof,
{
    reveal_strlit("let");
    reveal_strlit("fn");
    reveal_strlit("struct");
    reveal_strlit("if");
    reveal_strlit("else");
    assert forall|i: int| 0 <= i < rule_table().len() implies ascii_matcher(
        #[trigger] rule_table()[i].matcher,
    ) by {
        let m = rule_table()[i].matcher;
        if let MatcherModel::Keyword(w) = m {
            assert(forall|j: int| 0 <= j < w.len() ==> is_ascii_char(#[trigger] w[j]));
        }
    }
}

/// Provides the rules to the lexical scanner.
pub fn definitions() -> (r: Vec<Rule>)
    ensures
        r@.len() == rule_table().len(),
        forall|i: int| 0 <= i < r@.len() ==> #[trigger] r@[i]@ == rule_table()[i],
{
    let rules = vec![
        // Single characters
        Rule { kind: Kind::Bang, matcher: Matcher::Single('!') },
        Rule { kind: Kind::Equals, matcher: Matcher::Single('=') },
        Rule { kind: Kind::Divide, matcher: Matcher::Single('/') },
        Rule { kind: Kind::Underscore, matcher: Matcher::Single('_') },
        Rule { kind: Kind::LAngle, matcher: Matcher::Single('<') },
        Rule { kind: Kind::RAngle, matcher: Matcher::Single('>') },
        // Multiple characters
        Rule { kind: Kind::Eqq, matcher: Matcher::Pair('=', '=') },
        Rule { kind: Kind::Neq, matcher: Matcher::Pair('!', '=') },
        Rule { kind: Kind::And, matcher: Matcher::Pair('&', '&') },
        Rule { kind: Kind::Or, matcher: Matcher::Pair('|', '|') },
        Rule { kind: Kind::Leq, matcher: Matcher::Pair('<', '=') },
        Rule { kind: Kind::Geq, matcher: Matcher::Pair('>', '=') },
        // Keywords
        Rule { kind: Kind::KeywordLet, matcher: Matcher::Keyword("let") },
        Rule { kind: Kind::KeywordFn, matcher: Matcher::Keyword("fn") },
        Rule { kind: Kind::KeywordStruct, matcher: Matcher::Keyword("struct") },
        Rule { kind: Kind::KeywordIf, matcher: Matcher::Keyword("if") },
        Rule { kind: Kind::KeywordElse, matcher: Matcher::Keyword("else") },
        // Patterns (regular expressions)
        Rule { kind: Kind::String, matcher: Matcher::Pattern(compile(STRING_PATTERN)) },
        Rule { kind: Kind::Comment, matcher: Matcher::Pattern(compile(COMMENT_PATTERN)) },
        Rule { kind: Kind::Integer, matcher: Matcher::Pattern(compile(INTEGER_PATTERN)) },
        Rule { kind: Kind::Double, matcher: Matcher::Pattern(compile(DOUBLE_PATTERN)) },
        Rule { kind: Kind::Identifier, matcher: Matcher::Pattern(compile(IDENTIFIER_PATTERN)) },
    ];
    assert(rules@.len() == rule_table().len());
    rules
}

/// The kind of a character that can never begin a longer token.
pub open spec fn unambiguous(c: char) -> Option<Kind> {
    match c {
        '+' => Some(Kind::Plus),
        '-' => Some(Kind::Minus),
        '*' => Some(Kind::Times),
        '^' => Some(Kind::Power),
        '.' => Some(Kind::Dot),
        ',' => Some(Kind::Comma),
        ':' => Some(Kind::Colon),
        ';' => Some(Kind::SemiColon),
        '[' => Some(Kind::LSquare),
        ']' => Some(Kind::RSquare),
        '(' => Some(Kind::LParen),
        ')' => Some(Kind::RParen),
        '{' => Some(Kind::LBrace),
        '}' => Some(Kind::RBrace),
        _ => None,
    }
}

/// Matches a single, unambiguous character in the token stream.
///
/// Tokens that may only be a part of a larger token kind return `None`.
pub fn unambiguous_single_char(c: char) -> (r: Option<Kind>)
    ensures
        r == unambiguous(c),
        r is Some ==> is_ascii_char(c) && r->0 != Kind::Eof && r->0 != Kind::Whitespace && r->0 != Kind::Comment,
{
    match c {
        '+' => Some(Kind::Plus),
        '-' => Some(Kind::Minus),
        '*' => Some(Kind::Times),
        '^' => Some(Kind::Power),
        '.' => Some(Kind::Dot),
        ',' => Some(Kind::Comma),
        ':' => Some(Kind::Colon),
        ';' => Some(Kind::SemiColon),
        '[' => Some(Kind::LSquare),
        ']' => Some(Kind::RSquare),
        '(' => Some(Kind::LParen),
        ')' => Some(Kind::RParen),
        '{' => Some(Kind::LBrace),
        '}' => Some(Kind::RBrace),
        _ => None,
    }
}

} // verus!
