//! Character and string helpers: ASCII lowercasing, whitespace trimming,
//! and character-wise string comparison.
//!
//! Labels, emails and identifiers are compared case-insensitively in several
//! places; the helpers here give those comparisons exact specifications over
//! the `Seq<char>` views of the strings involved.

use vstd::prelude::*;

verus! {

/// ASCII lowercase mapping: `'A'..='Z'` map to `'a'..='z'`, everything else
/// is unchanged.
pub open spec fn lower_char(c: char) -> char {
    match c {
        'A' => 'a',
        'B' => 'b',
        'C' => 'c',
        'D' => 'd',
        'E' => 'e',
        'F' => 'f',
        'G' => 'g',
        'H' => 'h',
        'I' => 'i',
        'J' => 'j',
        'K' => 'k',
        'L' => 'l',
        'M' => 'm',
        'N' => 'n',
        'O' => 'o',
        'P' => 'p',
        'Q' => 'q',
        'R' => 'r',
        'S' => 's',
        'T' => 't',
        'U' => 'u',
        'V' => 'v',
        'W' => 'w',
        'X' => 'x',
        'Y' => 'y',
        'Z' => 'z',
        _ => c,
    }
}

/// ASCII-lowercased copy of a character sequence.
pub open spec fn lower_view(s: Seq<char>) -> Seq<char> {
    Seq::new(s.len(), |i: int| lower_char(s[i]))
}

/// Executable counterpart of [`lower_char`].
pub fn to_lower_char(c: char) -> (r: char)
    ensures
        r == lower_char(c),
{
    match c {
        'A' => 'a',
        'B' => 'b',
        'C' => 'c',
        'D' => 'd',
        'E' => 'e',
        'F' => 'f',
        'G' => 'g',
        'H' => 'h',
        'I' => 'i',
        'J' => 'j',
        'K' => 'k',
        'L' => 'l',
        'M' => 'm',
        'N' => 'n',
        'O' => 'o',
        'P' => 'p',
        'Q' => 'q',
        'R' => 'r',
        'S' => 's',
        'T' => 't',
        'U' => 'u',
        'V' => 'v',
        'W' => 'w',
        'X' => 'x',
        'Y' => 'y',
        'Z' => 'z',
        _ => c,
    }
}

/// The characters with the Unicode `White_Space` property, the set that
/// `str::trim` removes from the ends of a string.
pub open spec fn is_ws_char(c: char) -> bool {
    c == '\u{0009}' || c == '\u{000A}' || c == '\u{000B}' || c == '\u{000C}' || c == '\u{000D}'
        || c == ' ' || c == '\u{0085}' || c == '\u{00A0}' || c == '\u{1680}' || c == '\u{2000}'
        || c == '\u{2001}' || c == '\u{2002}' || c == '\u{2003}' || c == '\u{2004}'
        || c == '\u{2005}' || c == '\u{2006}' || c == '\u{2007}' || c == '\u{2008}'
        || c == '\u{2009}' || c == '\u{200A}' || c == '\u{2028}' || c == '\u{2029}'
        || c == '\u{202F}' || c == '\u{205F}' || c == '\u{3000}'
}

/// Executable counterpart of [`is_ws_char`].
pub fn is_white_space(c: char) -> (r: bool)
    ensures
        r == is_ws_char(c),
{
    c == '\u{0009}' || c == '\u{000A}' || c == '\u{000B}' || c == '\u{000C}' || c == '\u{000D}'
        || c == ' ' || c == '\u{0085}' || c == '\u{00A0}' || c == '\u{1680}' || c == '\u{2000}'
        || c == '\u{2001}' || c == '\u{2002}' || c == '\u{2003}' || c == '\u{2004}'
        || c == '\u{2005}' || c == '\u{2006}' || c == '\u{2007}' || c == '\u{2008}'
        || c == '\u{2009}' || c == '\u{200A}' || c == '\u{2028}' || c == '\u{2029}'
        || c == '\u{202F}' || c == '\u{205F}' || c == '\u{3000}'
}

/// ASCII letters and digits, the characters that survive slug sanitizing.
pub open spec fn is_alnum_char(c: char) -> bool {
    ('0' <= c && c <= '9') || ('a' <= c && c <= 'z') || ('A' <= c && c <= 'Z')
}

/// Executable counterpart of [`is_alnum_char`].
pub fn is_ascii_alnum(c: char) -> (r: bool)
    ensures
        r == is_alnum_char(c),
{
    ('0' <= c && c <= '9') || ('a' <= c && c <= 'z') || ('A' <= c && c <= 'Z')
}

/// Number of leading whitespace characters.
pub open spec fn trim_lo(s: Seq<char>) -> int
    decreases s.len(),
{
    if s.len() == 0 {
        0
    } else if !is_ws_char(s[0]) {
        0
    } else {
        1 + trim_lo(s.drop_first())
    }
}

/// Index one past the last non-whitespace character (0 when the sequence is
/// all whitespace).
pub open spec fn trim_hi(s: Seq<char>) -> int
    decreases s.len(),
{
    if s.len() == 0 {
        0
    } else if !is_ws_char(s[s.len() - 1]) {
        s.len() as int
    } else {
        trim_hi(s.drop_last())
    }
}

/// The sequence with leading and trailing whitespace removed, as `str::trim`
/// leaves it.
pub open spec fn trim_view(s: Seq<char>) -> Seq<char> {
    if trim_lo(s) <= trim_hi(s) {
        s.subrange(trim_lo(s), trim_hi(s))
    } else {
        Seq::<char>::empty()
    }
}

pub proof fn lemma_trim_lo(s: Seq<char>)
    ensures
        0 <= trim_lo(s) <= s.len(),
        forall|i: int| 0 <= i < trim_lo(s) ==> is_ws_char(s[i]),
        trim_lo(s) < s.len() ==> !is_ws_char(s[trim_lo(s)]),
    decreases s.len(),
{
    if s.len() == 0 {
    } else if !is_ws_char(s[0]) {
    } else {
        lemma_trim_lo(s.drop_first());
        assert forall|i: int| 0 <= i < trim_lo(s) implies is_ws_char(s[i]) by {
            if i > 0 {
                assert(s[i] == s.drop_first()[i - 1]);
            }
        }
        if trim_lo(s) < s.len() {
            assert(s[trim_lo(s)] == s.drop_first()[trim_lo(s.drop_first())]);
        }
    }
}

pub proof fn lemma_trim_hi(s: Seq<char>)
    ensures
        0 <= trim_hi(s) <= s.len(),
        forall|i: int| trim_hi(s) <= i < s.len() ==> is_ws_char(s[i]),
        trim_hi(s) > 0 ==> !is_ws_char(s[trim_hi(s) - 1]),
    decreases s.len(),
{
    if s.len() == 0 {
    } else if !is_ws_char(s[s.len() - 1]) {
    } else {
        lemma_trim_hi(s.drop_last());
        assert forall|i: int| trim_hi(s) <= i < s.len() implies is_ws_char(s[i]) by {
            if i < s.len() - 1 {
                assert(s[i] == s.drop_last()[i]);
            }
        }
        if trim_hi(s) > 0 {
            assert(s[trim_hi(s) - 1] == s.drop_last()[trim_hi(s.drop_last()) - 1]);
        }
    }
}

/// Finds the trimmed range of `s`: the result `(lo, hi)` brackets the
/// non-whitespace core, with `lo == hi` when the string is all whitespace.
pub fn trim_bounds(s: &str) -> (r: (usize, usize))
    ensures
        r.0 <= r.1 <= s@.len(),
        trim_lo(s@) <= trim_hi(s@) ==> r.0 == trim_lo(s@) && r.1 == trim_hi(s@),
        trim_lo(s@) > trim_hi(s@) ==> r.0 == r.1,
        trim_view(s@) == s@.subrange(r.0 as int, r.1 as int),
{
    proof {
        lemma_trim_lo(s@);
        lemma_trim_hi(s@);
    }
    let n = s.unicode_len();
    let mut lo: usize = 0;
    while lo < n && is_white_space(s.get_char(lo))
        invariant
            lo <= n,
            n == s@.len(),
            forall|i: int| 0 <= i < lo ==> is_ws_char(s@[i]),
        decreases n - lo,
    {
        lo = lo + 1;
    }
    let mut hi: usize = n;
    while hi > lo && is_white_space(s.get_char(hi - 1))
        invariant
            lo <= hi <= n,
            n == s@.len(),
            forall|i: int| 0 <= i < lo ==> is_ws_char(s@[i]),
            lo == n || !is_ws_char(s@[lo as int]),
            forall|i: int| hi <= i < n ==> is_ws_char(s@[i]),
        decreases hi,
    {
        hi = hi - 1;
    }
    proof {
        if trim_lo(s@) <= trim_hi(s@) {
            assert(lo == trim_lo(s@)) by {
                if lo < trim_lo(s@) {
                    assert(is_ws_char(s@[lo as int]));
                    assert(lo < s@.len());
                }
                if lo > trim_lo(s@) {
                    assert(is_ws_char(s@[trim_lo(s@)]));
                    assert(!is_ws_char(s@[trim_lo(s@)]));
                }
            }
            assert(hi == trim_hi(s@)) by {
                if hi < trim_hi(s@) {
                    assert(is_ws_char(s@[(trim_hi(s@) - 1) as int]));
                } else if hi > trim_hi(s@) {
                    assert(is_ws_char(s@[(hi - 1) as int]));
                    assert(hi - 1 >= lo);
                    assert(hi - 1 >= trim_hi(s@));
                    assert(!is_ws_char(s@[(hi - 1) as int]));
                }
            }
        } else {
            // All-whitespace string: trim_lo == len and trim_hi == 0,
            // so the first loop ran to the end and the second never ran.
            assert(trim_lo(s@) > 0);
            assert(lo == n) by {
                if lo < n {
                    assert(!is_ws_char(s@[lo as int]));
                    assert(lo < trim_lo(s@) || lo >= trim_lo(s@));
                    if lo < trim_lo(s@) {
                        assert(is_ws_char(s@[lo as int]));
                    } else {
                        assert(trim_lo(s@) <= lo < s@.len());
                        assert(trim_lo(s@) < s@.len());
                        assert(!is_ws_char(s@[trim_lo(s@)]));
                        assert(trim_hi(s@) >= trim_lo(s@) + 1) by {
                            if trim_hi(s@) < trim_lo(s@) + 1 {
                                assert(trim_lo(s@) >= trim_hi(s@));
                                assert(is_ws_char(s@[trim_lo(s@)]));
                            }
                        }
                    }
                }
            }
            assert(lo == hi);
            assert(trim_view(s@) == s@.subrange(lo as int, hi as int)) by {
                assert(trim_view(s@) == Seq::<char>::empty());
                assert(s@.subrange(lo as int, hi as int) =~= Seq::<char>::empty());
            }
        }
    }
    (lo, hi)
}

/// Copy of `s` with leading and trailing whitespace removed.
pub fn trim_str(s: &str) -> (r: String)
    ensures
        r@ == trim_view(s@),
{
    let (lo, hi) = trim_bounds(s);
    s.substring_char(lo, hi).to_owned()
}

/// Relies on `String::from_utf8`: a sequence of bytes below 0x80 is valid
/// UTF-8 and decodes to the characters with the same code points.
#[verifier::external_body]
pub(crate) fn string_from_ascii(bytes: Vec<u8>) -> (r: String)
    requires
        forall|i: int| 0 <= i < bytes@.len() ==> bytes@[i] < 0x80,
    ensures
        r@.len() == bytes@.len(),
        forall|i: int| 0 <= i < r@.len() ==> r@[i] == bytes@[i] as char,
{
    String::from_utf8(bytes).unwrap_or_default()
}

/// Character-wise string equality.
pub fn str_eq_str(a: &str, b: &str) -> (r: bool)
    ensures
        r == (a@ == b@),
{
    let na = a.unicode_len();
    let nb = b.unicode_len();
    if na != nb {
        proof {
            assert(a@ != b@) by {
                if a@ == b@ {
                    assert(a@.len() == b@.len());
                }
            }
        }
        return false;
    }
    let mut i: usize = 0;
    while i < na
        invariant
            i <= na,
            na == a@.len(),
            na == b@.len(),
            forall|j: int| 0 <= j < i ==> a@[j] == b@[j],
        decreases na - i,
    {
        if a.get_char(i) != b.get_char(i) {
            proof {
                assert(a@[i as int] != b@[i as int]);
            }
            return false;
        }
        i = i + 1;
    }
    proof {
        assert(a@ =~= b@);
    }
    true
}

/// String/`&str` equality through the views.
pub fn string_eq_str(a: &String, b: &str) -> (r: bool)
    ensures
        r == (a@ == b@),
{
    str_eq_str(a.as_str(), b)
}

/// Case-insensitive (ASCII) string equality on the trimmed strings; this is
/// the equivalence used to compare account emails.
pub open spec fn norm_view(s: Seq<char>) -> Seq<char> {
    lower_view(trim_view(s))
}

/// Decides whether two strings are equal after trimming whitespace and
/// ASCII-lowercasing, without building the normalized copies.
pub fn norm_eq(a: &str, b: &str) -> (r: bool)
    ensures
        r == (norm_view(a@) == norm_view(b@)),
{
    let (alo, ahi) = trim_bounds(a);
    let (blo, bhi) = trim_bounds(b);
    let na = ahi - alo;
    let nb = bhi - blo;
    if na != nb {
        proof {
            assert(norm_view(a@).len() == na);
            assert(norm_view(b@).len() == nb);
        }
        return false;
    }
    let mut i: usize = 0;
    while i < na
        invariant
            i <= na,
            na == nb,
            alo + na == ahi <= a@.len(),
            blo + nb == bhi <= b@.len(),
            trim_view(a@) == a@.subrange(alo as int, ahi as int),
            trim_view(b@) == b@.subrange(blo as int, bhi as int),
            forall|j: int| 0 <= j < i ==> norm_view(a@)[j] == norm_view(b@)[j],
        decreases na - i,
    {
        let ca = to_lower_char(a.get_char(alo + i));
        let cb = to_lower_char(b.get_char(blo + i));
        proof {
            assert(trim_view(a@)[i as int] == a@[alo + i]);
            assert(trim_view(b@)[i as int] == b@[blo + i]);
            assert(norm_view(a@)[i as int] == lower_char(a@[alo + i]));
            assert(norm_view(b@)[i as int] == lower_char(b@[blo + i]));
        }
        if ca != cb {
            return false;
        }
        i = i + 1;
    }
    proof {
        assert(norm_view(a@) =~= norm_view(b@));
    }
    true
}

} // verus!
