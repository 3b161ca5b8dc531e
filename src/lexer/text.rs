//! Facts about source text: UTF-8 widths, character boundaries and the
//! Unicode `White_Space` property.
use vstd::prelude::*;
use vstd::string::StringSliceAdditionalSpecFns;
use vstd::utf8::*;

verus! {

/// Number of bytes that `s` takes up when encoded as UTF-8.
pub open spec fn byte_len(s: Seq<char>) -> nat {
    encode_utf8(s).len()
}

/// Returns the length of `s` in bytes.
pub fn byte_length(s: &str) -> (n: usize)
    ensures
        n == byte_len(s@),
        n == s.spec_bytes().len(),
{
    s.as_bytes().len()
}

/// Whether `c` lies in the ASCII range (and so is encoded as one byte).
pub open spec fn is_ascii_char(c: char) -> bool {
    (c as u32) < 0x80
}

/// The characters with the Unicode `White_Space` property.
pub open spec fn is_white_space(c: char) -> bool {
    let u = c as u32;
    ||| 0x09 <= u <= 0x0D
    ||| u == 0x20
    ||| u == 0x85
    ||| u == 0xA0
    ||| u == 0x1680
    ||| 0x2000 <= u <= 0x200A
    ||| u == 0x2028
    ||| u == 0x2029
    ||| u == 0x202F
    ||| u == 0x205F
    ||| u == 0x3000
}

/// Tests `c` for the Unicode `White_Space` property.
pub fn is_whitespace(c: char) -> (r: bool)
    ensures
        r == is_white_space(c),
{
    let u = c as u32;
    (0x09 <= u && u <= 0x0D) || u == 0x20 || u == 0x85 || u == 0xA0 || u == 0x1680 || (0x2000
        <= u && u <= 0x200A) || u == 0x2028 || u == 0x2029 || u == 0x202F || u == 0x205F || u
        == 0x3000
}

/// Number of bytes in the UTF-8 encoding of `c`.
pub fn char_width(c: char) -> (n: usize)
    ensures
        n == byte_len(seq![c]),
        1 <= n <= 4,
        is_ascii_char(c) ==> n == 1,
{
    proof {
        lemma_byte_len_single(c);
    }
    let u = c as u32;
    if u < 0x80 {
        1
    } else if u < 0x800 {
        2
    } else if u < 0x10000 {
        3
    } else {
        4
    }
}

/// The encoding of a single character is that of its scalar value.
pub proof fn lemma_byte_len_single(c: char)
    ensures
        encode_utf8(seq![c]) == encode_scalar(c as u32),
        byte_len(seq![c]) == (if (c as u32) < 0x80 {
            1nat
        } else if (c as u32) < 0x800 {
            2nat
        } else if (c as u32) < 0x10000 {
            3nat
        } else {
            4nat
        }),
{
    char_is_scalar(c);
    assert(seq![c].drop_first() =~= Seq::<char>::empty());
    assert(encode_utf8(seq![c]) =~= encode_scalar(c as u32) + encode_utf8(Seq::<char>::empty()));
    assert(encode_utf8(seq![c]) =~= encode_scalar(c as u32));
}

/// Encoding distributes over concatenation.
pub proof fn lemma_encode_concat(a: Seq<char>, b: Seq<char>)
    ensures
        encode_utf8(a + b) == encode_utf8(a) + encode_utf8(b),
    decreases a.len(),
{
    if a.len() == 0 {
        assert(a + b =~= b);
        assert(encode_utf8(a) =~= Seq::<u8>::empty());
        assert(encode_utf8(a) + encode_utf8(b) =~= encode_utf8(b));
    } else {
        assert((a + b).drop_first() =~= a.drop_first() + b);
        assert((a + b)[0] == a[0]);
        lemma_encode_concat(a.drop_first(), b);
        assert(encode_utf8(a + b) =~= encode_utf8(a) + encode_utf8(b));
    }
}

/// Splitting a sequence of characters splits its byte length.
pub proof fn lemma_byte_len_split(s: Seq<char>, k: int)
    requires
        0 <= k <= s.len(),
    ensures
        byte_len(s) == byte_len(s.take(k)) + byte_len(s.skip(k)),
        encode_utf8(s) == encode_utf8(s.take(k)) + encode_utf8(s.skip(k)),
        encode_utf8(s).subrange(byte_len(s.take(k)) as int, byte_len(s) as int) == encode_utf8(
            s.skip(k),
        ),
{
    assert(s =~= s.take(k) + s.skip(k));
    lemma_encode_concat(s.take(k), s.skip(k));
    assert(encode_utf8(s).subrange(byte_len(s.take(k)) as int, byte_len(s) as int)
        =~= encode_utf8(s.skip(k)));
}

/// Every character takes at least one byte, so a longer prefix takes more bytes.
pub proof fn lemma_byte_len_bounds(s: Seq<char>)
    ensures
        s.len() <= byte_len(s) <= 4 * s.len(),
        s.len() > 0 ==> byte_len(s) > 0,
    decreases s.len(),
{
    if s.len() > 0 {
        lemma_byte_len_single(s[0]);
        lemma_encode_concat(seq![s[0]], s.drop_first());
        assert(s =~= seq![s[0]] + s.drop_first());
        lemma_byte_len_bounds(s.drop_first());
    }
}

/// Appending one character adds its width.
pub proof fn lemma_byte_len_push(s: Seq<char>, k: int)
    requires
        0 <= k < s.len(),
    ensures
        byte_len(s.take(k + 1)) == byte_len(s.take(k)) + byte_len(seq![s[k]]),
{
    assert(s.take(k + 1) =~= s.take(k) + seq![s[k]]);
    lemma_encode_concat(s.take(k), seq![s[k]]);
}

/// A run of ASCII characters takes one byte each.
pub proof fn lemma_byte_len_ascii(s: Seq<char>)
    requires
        forall|i: int| 0 <= i < s.len() ==> is_ascii_char(#[trigger] s[i]),
    ensures
        byte_len(s) == s.len(),
    decreases s.len(),
{
    if s.len() > 0 {
        lemma_byte_len_single(s[0]);
        lemma_encode_concat(seq![s[0]], s.drop_first());
        assert(s =~= seq![s[0]] + s.drop_first());
        assert forall|i: int| 0 <= i < s.drop_first().len() implies is_ascii_char(
            #[trigger] s.drop_first()[i],
        ) by {
            assert(s.drop_first()[i] == s[i + 1]);
        }
        lemma_byte_len_ascii(s.drop_first());
    }
}

/// The end of every prefix is a character boundary of the encoding.
pub proof fn lemma_prefix_is_boundary(s: Seq<char>, k: int)
    requires
        0 <= k <= s.len(),
    ensures
        is_char_boundary(encode_utf8(s), byte_len(s.take(k)) as int),
    decreases k,
{
    let bytes = encode_utf8(s);
    encode_utf8_valid_utf8(s);
    if k == 0 {
        assert(s.take(0) =~= Seq::<char>::empty());
        assert(byte_len(s.take(0)) == 0);
    } else {
        encode_utf8_first_scalar(s);
        let rest = s.drop_first();
        lemma_byte_len_single(s[0]);
        assert(s =~= seq![s[0]] + rest);
        lemma_encode_concat(seq![s[0]], rest);
        let w = encode_scalar(s[0] as u32).len();
        assert(pop_first_scalar(bytes) =~= encode_utf8(rest));
        lemma_prefix_is_boundary(rest, k - 1);
        assert(s.take(k) =~= seq![s[0]] + rest.take(k - 1));
        lemma_encode_concat(seq![s[0]], rest.take(k - 1));
        lemma_byte_len_bounds(s);
        lemma_byte_len_split(s, k);
        assert(byte_len(s.take(k)) == w + byte_len(rest.take(k - 1)));
        assert(byte_len(s.take(k)) > 0);
    }
}

/// Every character boundary of the encoding ends some prefix.
pub proof fn lemma_boundary_is_prefix(s: Seq<char>, n: int)
    requires
        is_char_boundary(encode_utf8(s), n),
    ensures
        exists|k: int| 0 <= k <= s.len() && #[trigger] byte_len(s.take(k)) == n,
    decreases s.len(),
{
    let bytes = encode_utf8(s);
    encode_utf8_valid_utf8(s);
    if n == 0 {
        assert(s.take(0) =~= Seq::<char>::empty());
        assert(byte_len(s.take(0)) == 0);
    } else {
        assert(s.len() > 0);
        encode_utf8_first_scalar(s);
        let rest = s.drop_first();
        lemma_byte_len_single(s[0]);
        assert(s =~= seq![s[0]] + rest);
        lemma_encode_concat(seq![s[0]], rest);
        let w = encode_scalar(s[0] as u32).len();
        assert(pop_first_scalar(bytes) =~= encode_utf8(rest));
        assert(is_char_boundary(encode_utf8(rest), n - w));
        lemma_boundary_is_prefix(rest, n - w);
        let k0 = choose|k: int| 0 <= k <= rest.len() && #[trigger] byte_len(rest.take(k)) == n - w;
        assert(s.take(k0 + 1) =~= seq![s[0]] + rest.take(k0));
        lemma_encode_concat(seq![s[0]], rest.take(k0));
        assert(byte_len(s.take(k0 + 1)) == n);
    }
}

/// Two character sequences with the same encoding are the same.
pub proof fn lemma_encode_injective(a: Seq<char>, b: Seq<char>)
    requires
        encode_utf8(a) == encode_utf8(b),
    ensures
        a == b,
{
    encode_utf8_decode_utf8(a);
    encode_utf8_decode_utf8(b);
}

/// Splits `s` after its first `k` characters, which take up `b` bytes.
pub fn split_chars<'a>(s: &'a str, b: usize, Ghost(k): Ghost<int>) -> (r: (&'a str, &'a str))
    requires
        0 <= k <= s@.len(),
        b == byte_len(s@.take(k)),
    ensures
        r.0@ == s@.take(k),
        r.1@ == s@.skip(k),
        r.1.spec_bytes() == s.spec_bytes().subrange(b as int, s.spec_bytes().len() as int),
{
    proof {
        lemma_prefix_is_boundary(s@, k);
        lemma_byte_len_split(s@, k);
    }
    let (head, tail) = s.split_at(b);
    proof {
        assert(encode_utf8(s@).subrange(0, b as int) =~= encode_utf8(s@.take(k)));
        lemma_encode_injective(head@, s@.take(k));
        lemma_encode_injective(tail@, s@.skip(k));
    }
    (head, tail)
}

/// Boundaries of a valid encoding past a boundary `p` are the boundaries of
/// the tail that starts at `p`, shifted by `p`.
pub proof fn lemma_boundary_shift(bytes: Seq<u8>, p: int, q: int)
    requires
        valid_utf8(bytes),
        is_char_boundary(bytes, p),
        p <= q <= bytes.len(),
    ensures
        valid_utf8(bytes.subrange(p, bytes.len() as int)),
        is_char_boundary(bytes.subrange(p, bytes.len() as int), q - p) == is_char_boundary(
            bytes,
            q,
        ),
{
    let tail = bytes.subrange(p, bytes.len() as int);
    valid_utf8_split(bytes, p);
    is_char_boundary_start_end_of_seq(bytes);
    is_char_boundary_start_end_of_seq(tail);
    if q < bytes.len() {
        is_char_boundary_iff_not_is_continuation_byte(bytes, q);
        is_char_boundary_iff_not_is_continuation_byte(tail, q - p);
        assert(tail[q - p] == bytes[q]);
    }
}

} // verus!
