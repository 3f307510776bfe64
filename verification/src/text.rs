//! Text in the transliteration alphabet.
//!
//! Keys and stem texts are strings over a fixed phonemic transliteration
//! alphabet, a subset of ASCII. This module defines the byte-lexicographic
//! order on character sequences, proves the order properties the store
//! relies on, and gives executable comparisons on `&str` values together
//! with the conversion between ASCII strings and their bytes.

use vstd::prelude::*;
use vstd::string::StrSliceExecFns;

verus! {

/// Every character of `s` lies in the ASCII range.
pub open spec fn ascii_text(s: Seq<char>) -> bool {
    vstd::utf8::is_ascii_chars(s)
}

/// The bytes of an ASCII character sequence, one byte per character.
pub open spec fn ascii_bytes(s: Seq<char>) -> Seq<u8> {
    s.map_values(|c: char| c as u8)
}

/// Byte-lexicographic "less than or equal" on character sequences.
///
/// For ASCII text this coincides with the byte order of the encoded form:
/// a shorter sequence precedes every sequence it is a prefix of, and
/// otherwise the first differing character decides.
pub open spec fn lex_le(a: Seq<char>, b: Seq<char>) -> bool
    decreases a.len(),
{
    if a.len() == 0 {
        true
    } else if b.len() == 0 {
        false
    } else if a[0] == b[0] {
        lex_le(a.drop_first(), b.drop_first())
    } else {
        a[0] < b[0]
    }
}

/// Byte-lexicographic "strictly less than" on character sequences.
pub open spec fn lex_lt(a: Seq<char>, b: Seq<char>) -> bool {
    lex_le(a, b) && a != b
}

/// `p` is a literal prefix of `s`.
pub open spec fn is_prefix_of(p: Seq<char>, s: Seq<char>) -> bool {
    p.len() <= s.len() && p == s.subrange(0, p.len() as int)
}

/// Two sequences below each other are equal.
pub proof fn lemma_lex_le_antisymmetric(a: Seq<char>, b: Seq<char>)
    requires
        lex_le(a, b),
        lex_le(b, a),
    ensures
        a == b,
    decreases a.len(),
{
    if a.len() == 0 {
        assert(b.len() == 0);
        assert(a =~= b);
    } else {
        assert(a[0] == b[0]);
        lemma_lex_le_antisymmetric(a.drop_first(), b.drop_first());
        assert(a.len() == b.len());
        assert forall|i: int| 0 <= i < a.len() implies a[i] == b[i] by {
            if i >= 1 {
                assert(a[i] == a.drop_first()[i - 1]);
                assert(b[i] == b.drop_first()[i - 1]);
            }
        }
        assert(a =~= b);
    }
}

/// The order is transitive.
pub proof fn lemma_lex_le_transitive(a: Seq<char>, b: Seq<char>, c: Seq<char>)
    requires
        lex_le(a, b),
        lex_le(b, c),
    ensures
        lex_le(a, c),
    decreases a.len(),
{
    if a.len() > 0 && b.len() > 0 && c.len() > 0 && a[0] == b[0] && b[0] == c[0] {
        lemma_lex_le_transitive(a.drop_first(), b.drop_first(), c.drop_first());
    }
}

/// Strict order below non-strict order composes to the strict order.
pub proof fn lemma_lex_lt_le_transitive(a: Seq<char>, b: Seq<char>, c: Seq<char>)
    requires
        lex_lt(a, b),
        lex_le(b, c),
    ensures
        lex_lt(a, c),
{
    lemma_lex_le_transitive(a, b, c);
    if a == c {
        lemma_lex_le_antisymmetric(a, b);
    }
}

/// While two sequences agree on their first `i` characters, the order is
/// decided by the remainders.
pub proof fn lemma_lex_le_skip(a: Seq<char>, b: Seq<char>, i: int)
    requires
        0 <= i <= a.len(),
        i <= b.len(),
        forall|j: int| 0 <= j < i ==> a[j] == b[j],
    ensures
        lex_le(a, b) == lex_le(a.skip(i), b.skip(i)),
    decreases i,
{
    if i > 0 {
        assert(a.len() > 0 && b.len() > 0 && a[0] == b[0]);
        assert(forall|j: int|
            0 <= j < i - 1 ==> a.drop_first()[j] == a[j + 1] && b.drop_first()[j] == b[j + 1]);
        lemma_lex_le_skip(a.drop_first(), b.drop_first(), i - 1);
        assert(a.drop_first().skip(i - 1) =~= a.skip(i));
        assert(b.drop_first().skip(i - 1) =~= b.skip(i));
    } else {
        assert(a.skip(0) =~= a);
        assert(b.skip(0) =~= b);
    }
}

/// Executable equality of two string slices.
pub fn str_eq(a: &str, b: &str) -> (r: bool)
    ensures
        r == (a@ == b@),
{
    let a_len = a.unicode_len();
    let b_len = b.unicode_len();
    if a_len != b_len {
        proof {
            assert(a@ != b@);
        }
        return false;
    }
    let mut i: usize = 0;
    while i < a_len
        invariant
            i <= a_len,
            a_len == a@.len(),
            a_len == b@.len(),
            forall|j: int| 0 <= j < i ==> a@[j] == b@[j],
        decreases a_len - i,
    {
        if a.get_char(i) != b.get_char(i) {
            proof {
                assert(a@ != b@);
            }
            return false;
        }
        i = i + 1;
    }
    proof {
        assert(a@ =~= b@);
    }
    true
}

/// Executable byte-lexicographic comparison of two string slices.
pub fn str_le(a: &str, b: &str) -> (r: bool)
    ensures
        r == lex_le(a@, b@),
{
    let a_len = a.unicode_len();
    let b_len = b.unicode_len();
    let mut i: usize = 0;
    loop
        invariant
            i <= a_len,
            i <= b_len,
            a_len == a@.len(),
            b_len == b@.len(),
            forall|j: int| 0 <= j < i ==> a@[j] == b@[j],
        decreases a_len - i,
    {
        if i == a_len {
            proof {
                lemma_lex_le_skip(a@, b@, i as int);
                assert(a@.skip(i as int).len() == 0);
            }
            return true;
        }
        if i == b_len {
            proof {
                lemma_lex_le_skip(a@, b@, i as int);
                assert(b@.skip(i as int).len() == 0);
                assert(a@.skip(i as int).len() > 0);
            }
            return false;
        }
        let ca = a.get_char(i);
        let cb = b.get_char(i);
        if ca != cb {
            proof {
                lemma_lex_le_skip(a@, b@, i as int);
                assert(a@.skip(i as int)[0] == a@[i as int]);
                assert(b@.skip(i as int)[0] == b@[i as int]);
            }
            return (ca as u32) < (cb as u32);
        }
        i = i + 1;
    }
}

/// Executable strict byte-lexicographic comparison of two string slices.
pub fn str_lt(a: &str, b: &str) -> (r: bool)
    ensures
        r == lex_lt(a@, b@),
{
    let le = str_le(a, b);
    let eq = str_eq(a, b);
    le && !eq
}

/// Executable prefix test on two string slices.
pub fn str_has_prefix(p: &str, s: &str) -> (r: bool)
    ensures
        r == is_prefix_of(p@, s@),
{
    let p_len = p.unicode_len();
    let s_len = s.unicode_len();
    if p_len > s_len {
        return false;
    }
    let mut i: usize = 0;
    while i < p_len
        invariant
            i <= p_len,
            p_len <= s_len,
            p_len == p@.len(),
            s_len == s@.len(),
            forall|j: int| 0 <= j < i ==> p@[j] == s@[j],
        decreases p_len - i,
    {
        if p.get_char(i) != s.get_char(i) {
            proof {
                assert(p@ != s@.subrange(0, p@.len() as int));
            }
            return false;
        }
        i = i + 1;
    }
    proof {
        assert(p@ =~= s@.subrange(0, p@.len() as int));
    }
    true
}

/// The bytes of an ASCII string, one byte per character.
pub fn str_to_ascii_bytes(s: &str) -> (r: Vec<u8>)
    requires
        ascii_text(s@),
    ensures
        r@ == ascii_bytes(s@),
{
    broadcast use vstd::string::is_ascii_spec_bytes;

    let r = s.as_bytes_vec();
    proof {
        assert(vstd::string::is_ascii(s));
        assert forall|i: int| 0 <= i < s@.len() implies r@[i] == ascii_bytes(s@)[i] by {
            assert(r@[i] == s@[i] as u8);
            assert(ascii_bytes(s@)[i] == s@[i] as u8);
        }
        assert(r@ =~= ascii_bytes(s@));
    }
    r
}

/// Builds a `String` from bytes in the ASCII range, one character per byte.
///
/// Relies on `String::from_utf8`: a sequence of bytes below 128 is valid
/// UTF-8 and decodes to exactly one character per byte, each with the code
/// point of its byte.
#[verifier::external_body]
pub fn string_from_ascii(bytes: Vec<u8>) -> (r: String)
    requires
        forall|i: int| 0 <= i < bytes@.len() ==> bytes@[i] < 128,
    ensures
        r@ == bytes@.map_values(|b: u8| b as char),
{
    match String::from_utf8(bytes) {
        Ok(s) => s,
        Err(_) => String::new(),
    }
}

/// ASCII bytes come back unchanged after being read as characters.
pub proof fn lemma_ascii_bytes_roundtrip(bytes: Seq<u8>)
    requires
        forall|i: int| 0 <= i < bytes.len() ==> bytes[i] < 128,
    ensures
        ascii_text(bytes.map_values(|b: u8| b as char)),
        ascii_bytes(bytes.map_values(|b: u8| b as char)) == bytes,
{
    let chars = bytes.map_values(|b: u8| b as char);
    assert forall|i: int| 0 <= i < chars.len() implies '\0' <= #[trigger] chars[i] <= '\u{7f}' by {
        assert(chars[i] == bytes[i] as char);
    }
    assert(ascii_bytes(chars) =~= bytes) by {
        assert(forall|i: int| 0 <= i < chars.len() ==> ascii_bytes(chars)[i] == chars[i] as u8);
    }
}

/// Characters in the ASCII range come back unchanged after a round trip
/// through their bytes.
pub proof fn lemma_ascii_text_roundtrip(s: Seq<char>)
    requires
        ascii_text(s),
    ensures
        forall|i: int| 0 <= i < ascii_bytes(s).len() ==> ascii_bytes(s)[i] < 128,
        ascii_bytes(s).map_values(|b: u8| b as char) == s,
{
    let bytes = ascii_bytes(s);
    assert forall|i: int| 0 <= i < bytes.len() implies bytes[i] < 128 by {
        assert(bytes[i] == s[i] as u8);
        assert('\0' <= s[i] <= '\u{7f}');
    }
    assert(bytes.map_values(|b: u8| b as char) =~= s) by {
        assert forall|i: int| 0 <= i < s.len() implies bytes.map_values(|b: u8| b as char)[i]
            == s[i] by {
            assert(bytes[i] == s[i] as u8);
            assert('\0' <= s[i] <= '\u{7f}');
        }
    }
}

} // verus!
