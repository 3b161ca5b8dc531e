//! This module contains the lexer, which tokenizes the input source.
use vstd::prelude::*;
use vstd::string::StringSliceAdditionalSpecFns;
use vstd::string::StrSliceExecFns;
use vstd::utf8::*;

pub use token::{Kind, Span, Token, TokenModel};

use rules::{
    ascii_matcher, definitions, lemma_rule_table_ascii, matcher_len, rule_table, unambiguous,
    unambiguous_single_char, MatcherModel, Rule, RuleModel,
};
use text::{
    byte_len, byte_length, char_width, is_ascii_char, is_white_space, is_whitespace,
    lemma_boundary_is_prefix, lemma_boundary_shift, lemma_byte_len_ascii, lemma_byte_len_bounds,
    lemma_byte_len_push, lemma_byte_len_split, lemma_prefix_is_boundary,
    split_chars,
};

pub mod rules;
pub mod text;
mod token;

verus! {

/// Number of whitespace characters at the start of `s`.
pub open spec fn whitespace_run(s: Seq<char>) -> nat
    decreases s.len(),
{
    if s.len() > 0 && is_white_space(s[0]) {
        1 + whitespace_run(s.drop_first())
    } else {
        0
    }
}

/// The longest match among `rules` at the start of `s`, as a kind and a number
/// of bytes; of equally long matches the earliest rule wins.
pub open spec fn longest_match(rules: Seq<RuleModel>, s: Seq<char>) -> Option<(Kind, nat)>
    decreases rules.len(),
{
    if rules.len() == 0 {
        None
    } else {
        let best = longest_match(rules.drop_last(), s);
        match matcher_len(rules.last().matcher, s) {
            Some(n) => match best {
                Some((_, m)) => if m >= n {
                    best
                } else {
                    Some((rules.last().kind, n))
                },
                None => Some((rules.last().kind, n)),
            },
            None => best,
        }
    }
}

/// The longest of some candidate matches, each a kind and, if it matched, a
/// number of bytes; of equally long matches the earliest candidate wins.
pub open spec fn longest_candidate(c: Seq<(Kind, Option<nat>)>) -> Option<(Kind, nat)>
    decreases c.len(),
{
    if c.len() == 0 {
        None
    } else {
        let best = longest_candidate(c.drop_last());
        match c.last().1 {
            Some(n) => match best {
                Some((_, m)) => if m >= n {
                    best
                } else {
                    Some((c.last().0, n))
                },
                None => Some((c.last().0, n)),
            },
            None => best,
        }
    }
}

/// What each of `rules` matches at the start of `s`.
pub open spec fn rule_candidates(rules: Seq<RuleModel>, s: Seq<char>) -> Seq<(Kind, Option<nat>)> {
    Seq::new(rules.len(), |i: int| (rules[i].kind, matcher_len(rules[i].matcher, s)))
}

/// Executable candidate matches, seen as numbers of bytes.
pub open spec fn candidate_view(c: Seq<(Kind, Option<usize>)>) -> Seq<(Kind, Option<nat>)> {
    Seq::new(
        c.len(),
        |i: int|
            (
                c[i].0,
                match c[i].1 {
                    Some(n) => Some(n as nat),
                    None => None,
                },
            ),
    )
}

/// The longest match among rules is the longest of what each rule matches.
pub proof fn lemma_rule_candidates(rules: Seq<RuleModel>, s: Seq<char>)
    ensures
        longest_match(rules, s) == longest_candidate(rule_candidates(rules, s)),
    decreases rules.len(),
{
    if rules.len() > 0 {
        lemma_rule_candidates(rules.drop_last(), s);
        assert(rule_candidates(rules.drop_last(), s) =~= rule_candidates(rules, s).drop_last());
    }
}

/// Chooses the longest of some candidate matches, the earliest of equally
/// long ones.
pub fn longest_of(candidates: &Vec<(Kind, Option<usize>)>) -> (r: Option<(Kind, usize)>)
    ensures
        same_match(r, longest_candidate(candidate_view(candidates@))),
{
    let ghost c = candidate_view(candidates@);
    let mut best: Option<(Kind, usize)> = None;
    let mut i: usize = 0;
    while i < candidates.len()
        invariant
            c == candidate_view(candidates@),
            i <= candidates@.len(),
            same_match(best, longest_candidate(c.take(i as int))),
        decreases candidates@.len() - i,
    {
        let (kind, found) = candidates[i];
        proof {
            assert(c.take(i + 1).drop_last() =~= c.take(i as int));
            assert(c.take(i + 1).last() == c[i as int]);
        }
        match found {
            Some(n) => {
                match best {
                    Some((_, m)) => {
                        if m < n {
                            best = Some((kind, n));
                        }
                    },
                    None => {
                        best = Some((kind, n));
                    },
                }
            },
            None => {},
        }
        i = i + 1;
    }
    proof {
        assert(c.take(i as int) =~= c);
    }
    best
}

/// The token, as a kind and a number of bytes, that can be recognised at the
/// start of `s`: a run of whitespace, an unambiguous character, or the longest
/// match of the rule table.
pub open spec fn recognize(s: Seq<char>) -> Option<(Kind, nat)> {
    if s.len() == 0 {
        None
    } else if is_white_space(s[0]) {
        Some((Kind::Whitespace, byte_len(s.take(whitespace_run(s) as int))))
    } else {
        match unambiguous(s[0]) {
            Some(kind) => Some((kind, 1)),
            None => longest_match(rule_table(), s),
        }
    }
}

/// The first character position from `i` on where a token can be recognised
/// again, or the end of `s`.
pub open spec fn resume_point(s: Seq<char>, i: nat) -> nat
    decreases s.len() - i,
{
    if i >= s.len() {
        s.len()
    } else if recognize(s.skip(i as int)) is Some {
        i
    } else {
        resume_point(s, i + 1)
    }
}

/// The token that the lexer produces at the start of a non-empty `s`: the one
/// recognised there, or an error token up to where recognition resumes.
#[verifier::opaque]
pub open spec fn scan(s: Seq<char>) -> (Kind, nat) {
    match recognize(s) {
        Some(found) => found,
        None => (Kind::Error, byte_len(s.take(resume_point(s, 1) as int))),
    }
}

/// The tokens of the encoded text `b` whose first byte lies at offset `pos`,
/// ending with one end-of-input token.
pub open spec fn lex_from(b: Seq<u8>, pos: nat) -> Seq<TokenModel>
    decreases b.len(),
{
    if b.len() == 0 {
        seq![TokenModel { kind: Kind::Eof, start: pos, end: pos }]
    } else {
        let (kind, n) = scan(decode_utf8(b));
        if 0 < n <= b.len() {
            seq![TokenModel { kind, start: pos, end: pos + n }] + lex_from(
                b.subrange(n as int, b.len() as int),
                pos + n,
            )
        } else {
            seq![]
        }
    }
}

/// The tokens of a source text.
pub open spec fn tokens_of(text: Seq<char>) -> Seq<TokenModel> {
    lex_from(encode_utf8(text), 0)
}

/// The bytes of `src` that the spans of `toks` cover, one after the other.
pub open spec fn joined(src: Seq<u8>, toks: Seq<TokenModel>) -> Seq<u8>
    decreases toks.len(),
{
    if toks.len() == 0 {
        seq![]
    } else {
        src.subrange(toks[0].start as int, toks[0].end as int) + joined(src, toks.drop_first())
    }
}

/// A whitespace run is the longest prefix of whitespace characters.
proof fn lemma_whitespace_run(s: Seq<char>, k: int)
    requires
        0 <= k <= s.len(),
        forall|j: int| 0 <= j < k ==> is_white_space(#[trigger] s[j]),
        k == s.len() || !is_white_space(s[k]),
    ensures
        whitespace_run(s) == k,
    decreases k,
{
    if k > 0 {
        assert forall|j: int| 0 <= j < k - 1 implies is_white_space(#[trigger] s.drop_first()[j]) by {
            assert(s.drop_first()[j] == s[j + 1]);
        }
        if k < s.len() {
            assert(s.drop_first()[k - 1] == s[k]);
        }
        lemma_whitespace_run(s.drop_first(), k - 1);
    }
}

/// Longest match: the rule chosen at a position matches there, no rule
/// matches more bytes, and no earlier rule matches as many; when no rule
/// matches, none is chosen.
pub proof fn lemma_longest_match(rules: Seq<RuleModel>, s: Seq<char>)
    ensures
        longest_match(rules, s) is None <==> forall|i: int|
            0 <= i < rules.len() ==> #[trigger] matcher_len(rules[i].matcher, s) is None,
        longest_match(rules, s) matches Some((kind, n)) ==> exists|i: int|
            0 <= i < rules.len() && rules[i].kind == kind && #[trigger] matcher_len(
                rules[i].matcher,
                s,
            ) == Some(n) && forall|j: int|
                0 <= j < i ==> !(#[trigger] matcher_len(rules[j].matcher, s) matches Some(m)
                    && m >= n),
        forall|i: int|
            0 <= i < rules.len() && #[trigger] matcher_len(rules[i].matcher, s) is Some
                ==> longest_match(rules, s) is Some && (longest_match(rules, s)->0).1 >= matcher_len(
                rules[i].matcher,
                s,
            )->0,
    decreases rules.len(),
{
    if rules.len() > 0 {
        let init = rules.drop_last();
        lemma_longest_match(init, s);
        assert forall|i: int| 0 <= i < init.len() implies init[i] == rules[i] by {}
        let best = longest_match(init, s);
        let last = rules.len() - 1;
        assert(rules.last() == rules[last]);
        match matcher_len(rules[last].matcher, s) {
            Some(n) => {
                match best {
                    Some((k0, m)) => {
                        if m >= n {
                            let i0 = choose|i: int|
                                0 <= i < init.len() && init[i].kind == k0 && #[trigger] matcher_len(
                                    init[i].matcher,
                                    s,
                                ) == Some(m) && forall|j: int|
                                    0 <= j < i ==> !(#[trigger] matcher_len(init[j].matcher, s) matches Some(
                                        m2,
                                    ) && m2 >= m);
                            assert(rules[i0] == init[i0]);
                            assert forall|j: int| 0 <= j < i0 implies !(#[trigger] matcher_len(
                                rules[j].matcher,
                                s,
                            ) matches Some(m2) && m2 >= m) by {
                                assert(rules[j] == init[j]);
                            }
                        } else {
                            assert forall|j: int| 0 <= j < last implies !(#[trigger] matcher_len(
                                rules[j].matcher,
                                s,
                            ) matches Some(m2) && m2 >= n) by {
                                assert(rules[j] == init[j]);
                            }
                        }
                    },
                    None => {
                        assert forall|j: int| 0 <= j < last implies !(#[trigger] matcher_len(
                            rules[j].matcher,
                            s,
                        ) matches Some(m2) && m2 >= n) by {
                            assert(rules[j] == init[j]);
                            assert(matcher_len(init[j].matcher, s) is None);
                        }
                    },
                }
            },
            None => {
                if let Some((k0, m)) = best {
                    let i0 = choose|i: int|
                        0 <= i < init.len() && init[i].kind == k0 && #[trigger] matcher_len(
                            init[i].matcher,
                            s,
                        ) == Some(m) && forall|j: int|
                            0 <= j < i ==> !(#[trigger] matcher_len(init[j].matcher, s) matches Some(
                                m2,
                            ) && m2 >= m);
                    assert(rules[i0] == init[i0]);
                    assert forall|j: int| 0 <= j < i0 implies !(#[trigger] matcher_len(
                        rules[j].matcher,
                        s,
                    ) matches Some(m2) && m2 >= m) by {
                        assert(rules[j] == init[j]);
                    }
                }
            },
        }
    }
}

/// Recognition resumes somewhere between `i` and the end.
proof fn lemma_resume_point_bounds(s: Seq<char>, i: nat)
    requires
        i <= s.len(),
    ensures
        i <= resume_point(s, i) <= s.len(),
    decreases s.len() - i,
{
    if i < s.len() && recognize(s.skip(i as int)) is None {
        lemma_resume_point_bounds(s, i + 1);
    }
}

/// Each step of the lexer consumes a non-empty prefix of whole characters, and
/// never yields the end-of-input kind.
proof fn lemma_scan_prefix(s: Seq<char>)
    requires
        s.len() > 0,
    ensures
        exists|j: int| 1 <= j <= s.len() && #[trigger] byte_len(s.take(j)) == scan(s).1,
        scan(s).0 != Kind::Eof,
{
    reveal(scan);
    lemma_rule_table_ascii();
    let n = scan(s).1;
    if recognize(s) is None {
        lemma_resume_point_bounds(s, 1);
        let j = resume_point(s, 1) as int;
        assert(byte_len(s.take(j)) == n);
    } else if is_white_space(s[0]) {
        let j = whitespace_run(s) as int;
        lemma_whitespace_bounds(s);
        assert(byte_len(s.take(j)) == n);
    } else if unambiguous(s[0]) is Some {
        assert(is_ascii_char(s[0]));
        lemma_byte_len_ascii(s.take(1));
        assert(byte_len(s.take(1)) == n);
    } else {
        let table = rule_table();
        lemma_longest_match(table, s);
        let (kind, n) = longest_match(table, s)->0;
        let i = choose|i: int|
            0 <= i < table.len() && table[i].kind == kind && #[trigger] matcher_len(
                table[i].matcher,
                s,
            ) == Some(n) && forall|j: int|
                0 <= j < i ==> !(#[trigger] matcher_len(table[j].matcher, s) matches Some(m)
                    && m >= n);
        assert(ascii_matcher(table[i].matcher));
        match table[i].matcher {
            MatcherModel::Single(c) => {
                lemma_byte_len_ascii(s.take(1));
                assert(byte_len(s.take(1)) == n);
            },
            MatcherModel::Pair(a, b) => {
                assert(s.take(2)[0] == a && s.take(2)[1] == b);
                lemma_byte_len_ascii(s.take(2));
                assert(byte_len(s.take(2)) == n);
            },
            MatcherModel::Keyword(w) => {
                assert(byte_len(s.take(w.len() as int)) == n);
            },
            MatcherModel::Pattern(p) => {
                lemma_boundary_is_prefix(s, n as int);
                let j = choose|j: int| 0 <= j <= s.len() && #[trigger] byte_len(s.take(j)) == n;
                if j == 0 {
                    assert(s.take(0) =~= Seq::<char>::empty());
                    lemma_byte_len_bounds(s.take(0));
                }
                assert(byte_len(s.take(j)) == n);
            },
        }
    }
}

/// A whitespace run at the start of `s` is at least one character long and
/// lies within `s`.
proof fn lemma_whitespace_bounds(s: Seq<char>)
    ensures
        whitespace_run(s) <= s.len(),
        s.len() > 0 && is_white_space(s[0]) ==> whitespace_run(s) >= 1,
        forall|j: int| 0 <= j < whitespace_run(s) ==> is_white_space(#[trigger] s[j]),
    decreases s.len(),
{
    if s.len() > 0 && is_white_space(s[0]) {
        lemma_whitespace_bounds(s.drop_first());
        assert forall|j: int| 0 <= j < whitespace_run(s) implies is_white_space(#[trigger] s[j]) by {
            if j > 0 {
                assert(s[j] == s.drop_first()[j - 1]);
            }
        }
    }
}

/// One step of the lexer on a non-empty valid encoding: a token of whole
/// characters, then the tokens of what follows it.
proof fn lemma_lex_step(b: Seq<u8>, pos: nat)
    requires
        valid_utf8(b),
        b.len() > 0,
    ensures
        ({
            let (kind, n) = scan(decode_utf8(b));
            &&& 0 < n <= b.len()
            &&& kind != Kind::Eof
            &&& is_char_boundary(b, n as int)
            &&& lex_from(b, pos) == seq![TokenModel { kind, start: pos, end: pos + n }] + lex_from(
                b.subrange(n as int, b.len() as int),
                pos + n,
            )
        }),
{
    decode_utf8_encode_utf8(b);
    let s = decode_utf8(b);
    let n = scan(s).1;
    lemma_scan_prefix(s);
    let j = choose|j: int| 1 <= j <= s.len() && #[trigger] byte_len(s.take(j)) == n;
    lemma_byte_len_bounds(s.take(j));
    lemma_byte_len_split(s, j);
    lemma_prefix_is_boundary(s, j);
}

/// The tokens lexed from a boundary `pos` of a valid encoding `f` follow one
/// another and end with one end-of-input token.
proof fn lemma_lex_from(f: Seq<u8>, pos: nat)
    requires
        valid_utf8(f),
        pos <= f.len(),
        is_char_boundary(f, pos as int),
    ensures
        ({
            let toks = lex_from(f.subrange(pos as int, f.len() as int), pos);
            &&& toks.len() >= 1
            &&& toks[0].start == pos
            &&& toks.last() == (TokenModel { kind: Kind::Eof, start: f.len(), end: f.len() })
            &&& forall|i: int|
                0 <= i < toks.len() - 1 ==> (#[trigger] toks[i]).kind != Kind::Eof && toks[i].start
                    < toks[i].end
            &&& forall|i: int, j: int|
                #![trigger toks[i], toks[j]]
                0 <= i && j == i + 1 && j < toks.len() ==> toks[i].end == toks[j].start
        }),
    decreases f.len() - pos,
{
    let toks = lex_from(f.subrange(pos as int, f.len() as int), pos);
    if pos < f.len() {
        let next = lemma_lex_from_next(f, pos);
        lemma_lex_from(f, next);
        let rest = lex_from(f.subrange(next as int, f.len() as int), next);
        assert forall|i: int| 0 <= i < toks.len() - 1 implies (#[trigger] toks[i]).kind
            != Kind::Eof && toks[i].start < toks[i].end by {
            if i > 0 {
                assert(toks[i] == rest[i - 1]);
            }
        }
        assert forall|i: int, j: int|
            #![trigger toks[i], toks[j]]
            0 <= i && j == i + 1 && j < toks.len() implies toks[i].end == toks[j].start by {
            assert(toks[j] == rest[j - 1]);
            if i > 0 {
                assert(toks[i] == rest[i - 1]);
            }
        }
        assert(toks.last() == rest.last());
    } else {
        assert(f.subrange(pos as int, f.len() as int).len() == 0);
    }
}

/// The texts of the tokens lexed from a boundary `pos` of a valid encoding
/// `f`, joined, give back the rest of `f`.
proof fn lemma_lex_from_joined(f: Seq<u8>, pos: nat)
    requires
        valid_utf8(f),
        pos <= f.len(),
        is_char_boundary(f, pos as int),
    ensures
        joined(f, lex_from(f.subrange(pos as int, f.len() as int), pos)) == f.subrange(
            pos as int,
            f.len() as int,
        ),
    decreases f.len() - pos,
{
    let toks = lex_from(f.subrange(pos as int, f.len() as int), pos);
    if pos < f.len() {
        let next = lemma_lex_from_next(f, pos);
        lemma_lex_from_joined(f, next);
        let rest = lex_from(f.subrange(next as int, f.len() as int), next);
        assert(toks.drop_first() =~= rest);
        assert(f.subrange(pos as int, f.len() as int) =~= f.subrange(pos as int, next as int)
            + f.subrange(next as int, f.len() as int));
    } else {
        assert(f.subrange(pos as int, f.len() as int).len() == 0);
        assert(joined(f, toks.drop_first()) == Seq::<u8>::empty());
        assert(f.subrange(pos as int, pos as int) =~= Seq::<u8>::empty());
        assert(joined(f, toks) =~= Seq::<u8>::empty());
    }
}

/// The first token lexed from a boundary `pos` of a valid, not yet exhausted
/// encoding `f` ends at a later boundary, where the rest of the tokens start.
proof fn lemma_lex_from_next(f: Seq<u8>, pos: nat) -> (next: nat)
    requires
        valid_utf8(f),
        pos < f.len(),
        is_char_boundary(f, pos as int),
    ensures
        pos < next <= f.len(),
        is_char_boundary(f, next as int),
        ({
            let toks = lex_from(f.subrange(pos as int, f.len() as int), pos);
            let t0 = TokenModel { kind: toks[0].kind, start: pos, end: next };
            &&& toks[0].kind != Kind::Eof
            &&& toks == seq![t0] + lex_from(f.subrange(next as int, f.len() as int), next)
        }),
{
    let b = f.subrange(pos as int, f.len() as int);
    lemma_boundary_shift(f, pos as int, pos as int);
    let (kind, n) = scan(decode_utf8(b));
    lemma_lex_step(b, pos);
    let next = pos + n;
    lemma_boundary_shift(f, pos as int, next as int);
    assert(b.subrange(n as int, b.len() as int) =~= f.subrange(next as int, f.len() as int));
    next
}

/// Every token lexed from a boundary `pos` of a valid encoding `f` spans
/// whole characters of `f`.
proof fn lemma_lex_from_aligned(f: Seq<u8>, pos: nat)
    requires
        valid_utf8(f),
        pos <= f.len(),
        is_char_boundary(f, pos as int),
    ensures
        ({
            let toks = lex_from(f.subrange(pos as int, f.len() as int), pos);
            forall|i: int|
                0 <= i < toks.len() ==> (#[trigger] toks[i]).start <= toks[i].end <= f.len()
                    && is_char_boundary(f, toks[i].start as int) && is_char_boundary(
                    f,
                    toks[i].end as int,
                )
        }),
    decreases f.len() - pos,
{
    let toks = lex_from(f.subrange(pos as int, f.len() as int), pos);
    if pos < f.len() {
        let next = lemma_lex_from_next(f, pos);
        lemma_lex_from_aligned(f, next);
        let rest = lex_from(f.subrange(next as int, f.len() as int), next);
        assert forall|i: int| 0 <= i < toks.len() implies (#[trigger] toks[i]).start <= toks[i].end
            <= f.len() && is_char_boundary(f, toks[i].start as int) && is_char_boundary(
            f,
            toks[i].end as int,
        ) by {
            if i > 0 {
                assert(toks[i] == rest[i - 1]);
            }
        }
    } else {
        assert(f.subrange(pos as int, f.len() as int).len() == 0);
    }
}

/// What one step of the lexer yields on a non-empty text: the token that
/// is recognised there, or else an error token up to where recognition
/// resumes; either way at least one byte, ending on a character boundary,
/// and never the end-of-input kind.
pub proof fn lemma_scan(s: Seq<char>)
    requires
        s.len() > 0,
    ensures
        0 < scan(s).1 <= byte_len(s),
        is_char_boundary(encode_utf8(s), scan(s).1 as int),
        scan(s).0 != Kind::Eof,
        recognize(s) matches Some(found) ==> scan(s) == found,
        recognize(s) is None ==> scan(s) == (Kind::Error, byte_len(s.take(resume_point(s, 1) as int))),
{
    encode_utf8_valid_utf8(s);
    lemma_lex_step(encode_utf8(s), 0);
    encode_utf8_decode_utf8(s);
    reveal(scan);
}

/// Total coverage: the tokens of a text cover it without gap or overlap, so
/// that their texts joined give back the text, and the last token is the only
/// end-of-input token, empty, at the end of the text.
pub proof fn lemma_total_coverage(text: Seq<char>)
    ensures
        ({
            let toks = tokens_of(text);
            let bytes = encode_utf8(text);
            &&& toks.len() >= 1
            &&& toks[0].start == 0
            &&& toks.last() == (TokenModel { kind: Kind::Eof, start: bytes.len(), end: bytes.len() })
            &&& forall|i: int| 0 <= i < toks.len() - 1 ==> (#[trigger] toks[i]).kind != Kind::Eof
            &&& forall|i: int, j: int|
                #![trigger toks[i], toks[j]]
                0 <= i && j == i + 1 && j < toks.len() ==> toks[i].end == toks[j].start
            &&& forall|i: int|
                0 <= i < toks.len() ==> (#[trigger] toks[i]).start <= toks[i].end <= bytes.len()
                    && is_char_boundary(bytes, toks[i].start as int) && is_char_boundary(
                    bytes,
                    toks[i].end as int,
                )
            &&& joined(bytes, toks) == bytes
        }),
{
    let bytes = encode_utf8(text);
    encode_utf8_valid_utf8(text);
    is_char_boundary_start_end_of_seq(bytes);
    assert(bytes.subrange(0, bytes.len() as int) =~= bytes);
    lemma_lex_from(bytes, 0);
    lemma_lex_from_joined(bytes, 0);
    lemma_lex_from_aligned(bytes, 0);
}

/// Forward progress: every token but the final end-of-input token covers at
/// least one byte.
pub proof fn lemma_forward_progress(text: Seq<char>)
    ensures
        forall|i: int|
            0 <= i < tokens_of(text).len() - 1 ==> (#[trigger] tokens_of(text)[i]).start
                < tokens_of(text)[i].end,
{
    let bytes = encode_utf8(text);
    encode_utf8_valid_utf8(text);
    is_char_boundary_start_end_of_seq(bytes);
    assert(bytes.subrange(0, bytes.len() as int) =~= bytes);
    lemma_lex_from(bytes, 0);
}

/// Idempotent re-lex: the text that the tokens of a text cover, lexed again,
/// gives the same tokens.
pub proof fn lemma_relex(text: Seq<char>)
    ensures
        tokens_of(decode_utf8(joined(encode_utf8(text), tokens_of(text)))) == tokens_of(text),
{
    lemma_total_coverage(text);
    encode_utf8_decode_utf8(text);
}

/// Whether an executable match result stands for a match of the model.
pub open spec fn same_match(r: Option<(Kind, usize)>, m: Option<(Kind, nat)>) -> bool {
    match (r, m) {
        (Some((k1, n1)), Some((k2, n2))) => k1 == k2 && n1 == n2,
        (None, None) => true,
        _ => false,
    }
}

/// A lexical scanner over one source text, producing its tokens one at a time.
pub struct Lexer<'input> {
    input: &'input str,
    rest: &'input str,
    position: usize,
    eof: bool,
    rules: Vec<Rule>,
}

impl<'input> Lexer<'input> {
    /// The lexer's state is consistent: the cursor lies on a character
    /// boundary of the source, and the rules are those of the table.
    pub closed spec fn wf(&self) -> bool {
        &&& self.position <= self.input.spec_bytes().len()
        &&& is_char_boundary(self.input.spec_bytes(), self.position as int)
        &&& self.rest.spec_bytes() == self.input.spec_bytes().subrange(
            self.position as int,
            self.input.spec_bytes().len() as int,
        )
        &&& self.rules@.len() == rule_table().len()
        &&& forall|i: int| 0 <= i < self.rules@.len() ==> #[trigger] self.rules@[i]@ == rule_table()[i]
        &&& self.eof ==> self.position == self.input.spec_bytes().len()
    }

    /// The source text.
    pub closed spec fn source(&self) -> Seq<char> {
        self.input@
    }

    /// The byte offset in the source where the next token starts.
    pub closed spec fn cursor(&self) -> nat {
        self.position as nat
    }

    /// Whether the end-of-input token has been produced.
    pub closed spec fn finished(&self) -> bool {
        self.eof
    }

    /// The tokens still to come are those of the text not yet tokenized,
    /// placed at the cursor, unless the end-of-input token has been produced.
    pub proof fn lemma_remaining(&self)
        requires
            self.wf(),
        ensures
            self.cursor() <= byte_len(self.source()),
            encode_utf8(self.remaining_text()) == encode_utf8(self.source()).subrange(
                self.cursor() as int,
                byte_len(self.source()) as int,
            ),
            self.finished() ==> self.remaining_text().len() == 0 && self.remaining()
                == Seq::<TokenModel>::empty(),
            !self.finished() ==> self.remaining() == lex_from(
                encode_utf8(self.remaining_text()),
                self.cursor(),
            ),
    {
        lemma_byte_len_bounds(self.rest@);
    }

    /// The part of the source that has not been tokenized yet.
    pub closed spec fn remaining_text(&self) -> Seq<char> {
        self.rest@
    }

    /// The tokens that the lexer has yet to produce.
    pub closed spec fn remaining(&self) -> Seq<TokenModel> {
        if self.eof {
            seq![]
        } else {
            lex_from(self.rest.spec_bytes(), self.position as nat)
        }
    }

    /// The tokens still to come lie on character boundaries of the source.
    pub proof fn lemma_remaining_aligned(&self)
        requires
            self.wf(),
        ensures
            forall|i: int|
                0 <= i < self.remaining().len() ==> (#[trigger] self.remaining()[i]).start
                    <= self.remaining()[i].end <= encode_utf8(self.source()).len()
                    && is_char_boundary(
                    encode_utf8(self.source()),
                    self.remaining()[i].start as int,
                ) && is_char_boundary(encode_utf8(self.source()), self.remaining()[i].end as int),
    {
        encode_utf8_valid_utf8(self.input@);
        lemma_lex_from_aligned(self.input.spec_bytes(), self.position as nat);
    }

    /// Creates a lexer at the start of `input`.
    pub fn new(input: &'input str) -> (r: Self)
        ensures
            r.wf(),
            r.source() == input@,
            r.remaining_text() == input@,
            r.cursor() == 0,
            !r.finished(),
            r.remaining() == tokens_of(input@),
    {
        let rules = definitions();
        let r = Self { input, rest: input, position: 0, eof: false, rules };
        proof {
            encode_utf8_valid_utf8(input@);
            is_char_boundary_start_end_of_seq(input.spec_bytes());
        }
        assert(input.spec_bytes().subrange(0, input.spec_bytes().len() as int) =~= input.spec_bytes());
        r
    }

    /// Iterates over input, collecting tokens into a `Vec`.
    pub fn tokenize(&mut self) -> (r: Vec<Token>)
        requires
            old(self).wf(),
        ensures
            final(self).wf(),
            final(self).source() == old(self).source(),
            r@.map_values(|t: Token| t@) == old(self).remaining(),
            final(self).remaining() == Seq::<TokenModel>::empty(),
    {
        let mut tokens: Vec<Token> = Vec::new();
        let mut done = false;
        while !done
            invariant
                self.wf(),
                self.source() == old(self).source(),
                tokens@.map_values(|t: Token| t@) + self.remaining() == old(self).remaining(),
                done ==> self.remaining() == Seq::<TokenModel>::empty(),
            decreases self.remaining().len() + (if done {
                0int
            } else {
                1int
            }),
        {
            let ghost before = tokens@.map_values(|t: Token| t@);
            match self.next() {
                Some(token) => {
                    tokens.push(token);
                    assert(tokens@.map_values(|t: Token| t@) =~= before.push(token@));
                    assert(before.push(token@) + self.remaining() =~= before + (seq![token@]
                        + self.remaining()));
                },
                None => {
                    done = true;
                },
            }
        }
        assert(tokens@.map_values(|t: Token| t@) + Seq::<TokenModel>::empty() =~= tokens@.map_values(
            |t: Token| t@,
        ));
        tokens
    }

    /// Produces the next token, or `None` once the end-of-input token has been
    /// produced.
    pub fn next(&mut self) -> (r: Option<Token>)
        requires
            old(self).wf(),
        ensures
            final(self).wf(),
            final(self).source() == old(self).source(),
            r is None ==> old(self).remaining() == Seq::<TokenModel>::empty()
                && final(self).remaining() == Seq::<TokenModel>::empty(),
            r matches Some(t) ==> old(self).remaining() == seq![t@] + final(self).remaining(),
    {
        if self.position >= byte_length(self.input) {
            if self.eof {
                return None;
            }
            assert(self.rest.spec_bytes().len() == 0);
            self.eof = true;
            let token = Token::new(Kind::Eof, Span::new(self.position, self.position));
            assert(old(self).remaining() =~= seq![token@] + self.remaining());
            Some(token)
        } else {
            let rest = self.rest;
            proof {
                lemma_byte_len_bounds(rest@);
            }
            Some(self.next_token(rest))
        }
    }

    /// Attempts to consume the next token, emitting an error on failure.
    pub fn next_token(&mut self, input: &str) -> (r: Token)
        requires
            old(self).wf(),
            input@ == old(self).remaining_text(),
            input@.len() > 0,
        ensures
            final(self).wf(),
            final(self).source() == old(self).source(),
            old(self).remaining() == seq![r@] + final(self).remaining(),
            r@ == (TokenModel {
                kind: scan(input@).0,
                start: old(self).cursor(),
                end: old(self).cursor() + scan(input@).1,
            }),
            r@.start < r@.end <= old(self).cursor() + byte_len(input@),
            r@.kind != Kind::Eof,
            final(self).cursor() == r@.end,
            !final(self).finished(),
            encode_utf8(final(self).remaining_text()) == encode_utf8(input@).subrange(
                scan(input@).1 as int,
                byte_len(input@) as int,
            ),
    {
        let ghost s = input@;
        let ghost f = self.input.spec_bytes();
        let ghost b = self.rest.spec_bytes();
        proof {
            encode_utf8_valid_utf8(self.input@);
            encode_utf8_decode_utf8(self.rest@);
            lemma_boundary_shift(f, self.position as int, self.position as int);
            lemma_byte_len_bounds(s);
            lemma_lex_step(b, self.position as nat);
            reveal(scan);
        }
        let (kind, len) = match self.validate(input) {
            Some(found) => found,
            None => (Kind::Error, self.handle_error(input)),
        };
        assert(scan(s) == (kind, len as nat));
        let start = self.position;
        let total = byte_length(self.input);
        assert(start + len <= total);
        let (_, tail) = self.rest.split_at(len);
        proof {
            lemma_boundary_shift(f, start as int, start + len);
            assert(tail.spec_bytes() =~= f.subrange(start + len, f.len() as int));
        }
        self.rest = tail;
        self.position = start + len;
        Token::new(kind, Span::new(start, start + len))
    }

    /// Recognises the next token at the start of `input`, if any.
    fn validate(&self, input: &str) -> (r: Option<(Kind, usize)>)
        requires
            self.wf(),
        ensures
            same_match(r, recognize(input@)),
    {
        let total = byte_length(input);
        proof {
            lemma_byte_len_bounds(input@);
        }
        if total == 0 {
            return None;
        }
        let next = input.get_char(0);

        /* Whitespace tokens */
        if is_whitespace(next) {
            return Some((Kind::Whitespace, whitespace_len(input)));
        }

        /* Unambiguous single-character tokens */
        match unambiguous_single_char(next) {
            Some(kind) => {
                return Some((kind, 1));
            },
            None => {},
        }

        /* Single character (ambiguous), multi-character and keywords */
        proof {
            lemma_rule_table_ascii();
        }
        let ghost table = rule_table();
        let mut candidates: Vec<(Kind, Option<usize>)> = Vec::new();
        let mut i: usize = 0;
        while i < self.rules.len()
            invariant
                self.wf(),
                table == rule_table(),
                i <= self.rules@.len(),
                candidates@.len() == i,
                candidate_view(candidates@) == rule_candidates(table, input@).take(i as int),
            decreases self.rules@.len() - i,
        {
            let rule = &self.rules[i];
            proof {
                lemma_rule_table_ascii();
                assert(rule@ == table[i as int]);
                assert(ascii_matcher(rule_table()[i as int].matcher));
            }
            let found = rule.matches(input);
            candidates.push((rule.kind, found));
            proof {
                assert(candidate_view(candidates@) =~= rule_candidates(table, input@).take(i + 1));
            }
            i = i + 1;
        }
        proof {
            assert(rule_candidates(table, input@).take(i as int) =~= rule_candidates(table, input@));
            lemma_rule_candidates(table, input@);
        }
        longest_of(&candidates)
    }

    /// Measures the error token at the start of `input`: up to the first later
    /// character where a token can be recognised, or to the end.
    fn handle_error(&self, input: &str) -> (n: usize)
        requires
            self.wf(),
            input@.len() > 0,
        ensures
            n == byte_len(input@.take(resume_point(input@, 1) as int)),
    {
        let ghost s = input@;
        let total = byte_length(input);
        let first = input.get_char(0);
        let mut b = char_width(first);
        let ghost mut i: int = 1;
        proof {
            lemma_byte_len_push(s, 0);
            assert(s.take(0) =~= Seq::<char>::empty());
            lemma_byte_len_split(s, 1);
        }
        let mut found = false;
        while !found && b < total
            invariant
                self.wf(),
                s == input@,
                total == byte_len(s),
                1 <= i <= s.len(),
                b == byte_len(s.take(i)),
                found ==> resume_point(s, 1) == i,
                !found ==> resume_point(s, 1) == resume_point(s, i as nat),
            decreases s.len() - i + (if found {
                0int
            } else {
                1int
            }),
        {
            proof {
                if i == s.len() {
                    assert(s.take(i) =~= s);
                }
            }
            let (_, tail) = split_chars(input, b, Ghost(i));
            if self.validate(tail).is_some() {
                found = true;
            } else {
                proof {
                    lemma_byte_len_bounds(tail@);
                    lemma_byte_len_push(s, i);
                    lemma_byte_len_split(s, i + 1);
                }
                let c = tail.get_char(0);
                b = b + char_width(c);
                proof {
                    i = i + 1;
                }
            }
        }
        proof {
            if !found {
                lemma_byte_len_split(s, i);
                if i < s.len() {
                    lemma_byte_len_bounds(s.skip(i));
                }
            }
        }
        b
    }
}

/// Measures the run of whitespace at the start of `input`, in bytes.
fn whitespace_len(input: &str) -> (n: usize)
    ensures
        n == byte_len(input@.take(whitespace_run(input@) as int)),
{
    let ghost s = input@;
    let total = byte_length(input);
    let mut b: usize = 0;
    let ghost mut i: int = 0;
    let mut more = true;
    proof {
        assert(s.take(0) =~= Seq::<char>::empty());
    }
    while more && b < total
        invariant
            s == input@,
            total == byte_len(s),
            0 <= i <= s.len(),
            b == byte_len(s.take(i)),
            forall|j: int| 0 <= j < i ==> is_white_space(#[trigger] s[j]),
            !more ==> i < s.len() && !is_white_space(s[i]),
        decreases s.len() - i + (if more {
            1int
        } else {
            0int
        }),
    {
        proof {
            if i == s.len() {
                assert(s.take(i) =~= s);
            }
        }
        let (_, tail) = split_chars(input, b, Ghost(i));
        proof {
            lemma_byte_len_split(s, i);
            lemma_byte_len_bounds(tail@);
        }
        let c = tail.get_char(0);
        if is_whitespace(c) {
            proof {
                lemma_byte_len_push(s, i);
                lemma_byte_len_split(s, i + 1);
            }
            b = b + char_width(c);
            proof {
                i = i + 1;
            }
        } else {
            more = false;
        }
    }
    proof {
        if more {
            lemma_byte_len_split(s, i);
            if i < s.len() {
                lemma_byte_len_bounds(s.skip(i));
            }
        }
        lemma_whitespace_run(s, i);
    }
    b
}

} // verus!
