use vstd::prelude::*;
use vstd::utf8::is_ascii_chars;

verus! {

/// The character that stands for the six-bit value `v` in the standard
/// base64 alphabet: `A-Z`, then `a-z`, then `0-9`, then `+` and `/`.
pub open spec fn sextet_char(v: int) -> char {
    if v < 26 {
        (65 + v) as char
    } else if v < 52 {
        (97 + (v - 26)) as char
    } else if v < 62 {
        (48 + (v - 52)) as char
    } else if v == 62 {
        '+'
    } else {
        '/'
    }
}

/// The six-bit value that a character of the standard base64 alphabet stands for.
pub open spec fn sextet_value(c: char) -> int {
    if 'A' <= c <= 'Z' {
        c as int - 65
    } else if 'a' <= c <= 'z' {
        c as int - 97 + 26
    } else if '0' <= c <= '9' {
        c as int - 48 + 52
    } else if c == '+' {
        62
    } else {
        63
    }
}

/// A character of the standard base64 alphabet `[A-Za-z0-9+/]`.
pub open spec fn is_base64_char(c: char) -> bool {
    ('A' <= c <= 'Z') || ('a' <= c <= 'z') || ('0' <= c <= '9') || c == '+' || c == '/'
}

/// Standard base64 text of `b` (RFC 4648 section 4): each group of three
/// bytes becomes four characters, and a last group of one or two bytes is
/// completed with `=` up to four characters. No line breaks.
pub open spec fn base64_encode(b: Seq<u8>) -> Seq<char>
    decreases b.len(),
{
    if b.len() == 0 {
        Seq::empty()
    } else if b.len() == 1 {
        let x = b[0] as int;
        seq![sextet_char(x / 4), sextet_char((x % 4) * 16), '=', '=']
    } else if b.len() == 2 {
        let (x, y) = (b[0] as int, b[1] as int);
        seq![
            sextet_char(x / 4),
            sextet_char((x % 4) * 16 + y / 16),
            sextet_char((y % 16) * 4),
            '=',
        ]
    } else {
        let (x, y, z) = (b[0] as int, b[1] as int, b[2] as int);
        seq![
            sextet_char(x / 4),
            sextet_char((x % 4) * 16 + y / 16),
            sextet_char((y % 16) * 4 + z / 64),
            sextet_char(z % 64),
        ] + base64_encode(b.subrange(3, b.len() as int))
    }
}

/// The bytes that standard base64 text stands for, four characters at a time;
/// a group ending in `=` or `==` stands for two or one bytes.
pub open spec fn base64_decode(s: Seq<char>) -> Seq<u8>
    decreases s.len(),
{
    if s.len() < 4 {
        Seq::empty()
    } else {
        let (v0, v1, v2, v3) = (
            sextet_value(s[0]),
            sextet_value(s[1]),
            sextet_value(s[2]),
            sextet_value(s[3]),
        );
        let b0 = (v0 * 4 + v1 / 16) as u8;
        let b1 = ((v1 % 16) * 16 + v2 / 4) as u8;
        let b2 = ((v2 % 4) * 64 + v3) as u8;
        let group = if s[2] == '=' {
            seq![b0]
        } else if s[3] == '=' {
            seq![b0, b1]
        } else {
            seq![b0, b1, b2]
        };
        group + base64_decode(s.subrange(4, s.len() as int))
    }
}

/// `s` is base64 alphabet characters followed by `n` padding characters `=`.
pub open spec fn base64_with_padding(s: Seq<char>, n: int) -> bool {
    &&& 0 <= n <= s.len()
    &&& forall|i: int| 0 <= i < s.len() - n ==> is_base64_char(#[trigger] s[i])
    &&& forall|i: int| s.len() - n <= i < s.len() ==> #[trigger] s[i] == '='
}

/// Text made of the standard base64 alphabet in groups of four characters,
/// of which the last one or two may be the padding character `=`.
pub open spec fn is_base64_text(s: Seq<char>) -> bool {
    &&& s.len() % 4 == 0
    &&& exists|n: int| 0 <= n <= 2 && #[trigger] base64_with_padding(s, n)
}

proof fn lemma_sextet(v: int)
    requires
        0 <= v < 64,
    ensures
        is_base64_char(sextet_char(v)),
        sextet_value(sextet_char(v)) == v,
{
}

proof fn lemma_split_byte_pair(x: int, y: int)
    requires
        0 <= x < 256,
        0 <= y < 256,
    ensures
        ((x % 4) * 16 + y / 16) / 16 == x % 4,
        ((x % 4) * 16 + y / 16) % 16 == y / 16,
        (x / 4) * 4 + x % 4 == x,
        (y / 16) * 16 + y % 16 == y,
        0 <= (x % 4) * 16 + y / 16 < 64,
{
    assert(((x % 4) * 16 + y / 16) / 16 == x % 4) by (nonlinear_arith)
        requires 0 <= x < 256, 0 <= y < 256;
    assert(((x % 4) * 16 + y / 16) % 16 == y / 16) by (nonlinear_arith)
        requires 0 <= x < 256, 0 <= y < 256;
}

/// Decoding the base64 text of any bytes gives those bytes back.
pub proof fn lemma_base64_round_trip(b: Seq<u8>)
    ensures
        base64_decode(base64_encode(b)) == b,
    decreases b.len(),
{
    let s = base64_encode(b);
    if b.len() == 0 {
    } else if b.len() == 1 {
        let x = b[0] as int;
        lemma_sextet(x / 4);
        lemma_sextet((x % 4) * 16);
        lemma_split_byte_pair(x, 0);
        assert(s.subrange(4, s.len() as int) =~= Seq::<char>::empty());
        assert(base64_decode(Seq::<char>::empty()) =~= Seq::<u8>::empty());
        assert(base64_decode(s) =~= b);
    } else if b.len() == 2 {
        let (x, y) = (b[0] as int, b[1] as int);
        lemma_sextet(x / 4);
        lemma_sextet((x % 4) * 16 + y / 16);
        lemma_sextet((y % 16) * 4);
        lemma_split_byte_pair(x, y);
        lemma_split_byte_pair(y, 0);
        assert(s.subrange(4, s.len() as int) =~= Seq::<char>::empty());
        assert(base64_decode(Seq::<char>::empty()) =~= Seq::<u8>::empty());
        assert(base64_decode(s) =~= b);
    } else {
        let (x, y, z) = (b[0] as int, b[1] as int, b[2] as int);
        let rest = b.subrange(3, b.len() as int);
        lemma_sextet(x / 4);
        lemma_sextet((x % 4) * 16 + y / 16);
        lemma_sextet((y % 16) * 4 + z / 64);
        lemma_sextet(z % 64);
        lemma_split_byte_pair(x, y);
        lemma_split_byte_pair(y * 4 % 256, z);
        lemma_base64_round_trip(rest);
        assert(s.subrange(4, s.len() as int) =~= base64_encode(rest));
        assert(base64_decode(s) =~= b);
    }
}

/// The base64 text of any bytes is well-formed base64 text, four characters
/// for each group of up to three bytes.
pub proof fn lemma_base64_text(b: Seq<u8>)
    ensures
        is_base64_text(base64_encode(b)),
        base64_encode(b).len() == 4 * ((b.len() + 2) / 3),
    decreases b.len(),
{
    let s = base64_encode(b);
    if b.len() == 0 {
        assert(base64_with_padding(s, 0));
    } else if b.len() == 1 {
        let x = b[0] as int;
        lemma_sextet(x / 4);
        lemma_sextet((x % 4) * 16);
        assert(base64_with_padding(s, 2));
    } else if b.len() == 2 {
        let (x, y) = (b[0] as int, b[1] as int);
        lemma_sextet(x / 4);
        lemma_sextet((x % 4) * 16 + y / 16);
        lemma_sextet((y % 16) * 4);
        assert(base64_with_padding(s, 1));
    } else {
        let (x, y, z) = (b[0] as int, b[1] as int, b[2] as int);
        let rest = b.subrange(3, b.len() as int);
        lemma_sextet(x / 4);
        lemma_sextet((x % 4) * 16 + y / 16);
        lemma_sextet((y % 16) * 4 + z / 64);
        lemma_sextet(z % 64);
        lemma_base64_text(rest);
        let t = base64_encode(rest);
        let n = choose|n: int| 0 <= n <= 2 && #[trigger] base64_with_padding(t, n);
        assert(s =~= s.subrange(0, 4) + t);
        assert forall|i: int| 0 <= i < s.len() - n implies is_base64_char(#[trigger] s[i]) by {
            if i >= 4 {
                assert(s[i] == t[i - 4]);
            }
        }
        assert forall|i: int| s.len() - n <= i < s.len() implies #[trigger] s[i] == '=' by {
            assert(s[i] == t[i - 4]);
        }
        assert(base64_with_padding(s, n));
    }
}

/// Base64 text is ASCII text.
pub proof fn lemma_base64_text_is_ascii(s: Seq<char>)
    requires
        is_base64_text(s),
    ensures
        is_ascii_chars(s),
{
    let n = choose|n: int| 0 <= n <= 2 && #[trigger] base64_with_padding(s, n);
    assert forall|i: int| 0 <= i < s.len() implies '\0' <= #[trigger] s[i] <= '\u{7f}' by {
        if i < s.len() - n {
            assert(is_base64_char(s[i]));
        } else {
            assert(s[i] == '=');
        }
    }
}

} // verus!
