//! Lexicographic ordering of character sequences, used for the
//! case-insensitive label sorting of slots and slot-derived accounts.

use vstd::prelude::*;

use crate::text::{lower_char, lower_view, to_lower_char};
use vstd::multiset::Multiset;

verus! {

/// Characters with equal code points are equal.
proof fn lemma_char_eq(x: char, y: char)
    requires
        (x as u32) == (y as u32),
    ensures
        x == y,
{
    vstd::utf8::char_u32_cast(x, x as u32);
    vstd::utf8::char_u32_cast(y, y as u32);
}

/// Strict lexicographic order by code point: the empty sequence comes first,
/// otherwise the first differing position decides.
pub open spec fn lex_lt(a: Seq<char>, b: Seq<char>) -> bool
    decreases a.len(),
{
    if b.len() == 0 {
        false
    } else if a.len() == 0 {
        true
    } else if (a[0] as u32) < (b[0] as u32) {
        true
    } else if (a[0] as u32) > (b[0] as u32) {
        false
    } else {
        lex_lt(a.drop_first(), b.drop_first())
    }
}

/// Non-strict lexicographic order.
pub open spec fn lex_le(a: Seq<char>, b: Seq<char>) -> bool {
    a == b || lex_lt(a, b)
}

/// Exactly one of `lex_lt(a, b)`, `a == b`, `lex_lt(b, a)` holds.
pub proof fn lemma_lex_trichotomy(a: Seq<char>, b: Seq<char>)
    ensures
        lex_lt(a, b) || a == b || lex_lt(b, a),
        lex_lt(a, b) ==> a != b && !lex_lt(b, a),
        a == b ==> !lex_lt(a, b) && !lex_lt(b, a),
    decreases a.len() + b.len(),
{
    if a.len() == 0 && b.len() == 0 {
        assert(a =~= b);
    } else if a.len() > 0 && b.len() > 0 {
        if (a[0] as u32) == (b[0] as u32) {
            lemma_char_eq(a[0], b[0]);
            assert(a[0] == b[0]);
            lemma_lex_trichotomy(a.drop_first(), b.drop_first());
            if a.drop_first() == b.drop_first() {
                assert forall|i: int| 0 <= i < a.len() implies a[i] == b[i] by {
                    if i > 0 {
                        assert(a[i] == a.drop_first()[i - 1]);
                        assert(b[i] == b.drop_first()[i - 1]);
                    }
                }
                assert(a =~= b);
            }
            if a == b {
                assert(a.drop_first() =~= b.drop_first());
            }
        } else {
            if a == b {
                assert(a[0] == b[0]);
            }
        }
    } else if a == b {
        assert(a.len() == b.len());
    }
}

/// Strict lexicographic order is transitive.
pub proof fn lemma_lex_lt_trans(a: Seq<char>, b: Seq<char>, c: Seq<char>)
    requires
        lex_lt(a, b),
        lex_lt(b, c),
    ensures
        lex_lt(a, c),
    decreases a.len() + b.len() + c.len(),
{
    if a.len() == 0 {
    } else {
        // b and c are nonempty since something is below them.
        if (a[0] as u32) == (b[0] as u32) && (b[0] as u32) == (c[0] as u32) {
            lemma_lex_lt_trans(a.drop_first(), b.drop_first(), c.drop_first());
        }
    }
}

/// A difference at position `i`, after equal prefixes, decides the order.
pub proof fn lemma_lex_lt_from_diff(x: Seq<char>, y: Seq<char>, i: int)
    requires
        0 <= i < x.len(),
        i < y.len(),
        forall|j: int| 0 <= j < i ==> x[j] == y[j],
        (x[i] as u32) < (y[i] as u32),
    ensures
        lex_lt(x, y),
    decreases i,
{
    if i > 0 {
        assert(x[0] == y[0]);
        assert forall|j: int| 0 <= j < i - 1 implies x.drop_first()[j] == y.drop_first()[j] by {
            assert(x.drop_first()[j] == x[j + 1]);
            assert(y.drop_first()[j] == y[j + 1]);
        }
        assert(x.drop_first()[i - 1] == x[i]);
        assert(y.drop_first()[i - 1] == y[i]);
        lemma_lex_lt_from_diff(x.drop_first(), y.drop_first(), i - 1);
    }
}

/// A strict prefix comes first.
pub proof fn lemma_lex_lt_from_prefix(x: Seq<char>, y: Seq<char>)
    requires
        x.len() < y.len(),
        forall|j: int| 0 <= j < x.len() ==> x[j] == y[j],
    ensures
        lex_lt(x, y),
    decreases x.len(),
{
    if x.len() > 0 {
        assert forall|j: int|
            0 <= j < x.drop_first().len() implies x.drop_first()[j] == y.drop_first()[j] by {
            assert(x.drop_first()[j] == x[j + 1]);
            assert(y.drop_first()[j] == y[j + 1]);
        }
        lemma_lex_lt_from_prefix(x.drop_first(), y.drop_first());
    }
}

/// Three-way comparison of two strings, optionally ASCII-lowercased first:
/// the result orders `key(a)` against `key(b)` lexicographically, where
/// `key` is `lower_view` when `lowered` is set and the identity otherwise.
pub fn str_key_cmp(a: &str, b: &str, lowered: bool) -> (r: i32)
    ensures
        ({
            let ka = if lowered {
                lower_view(a@)
            } else {
                a@
            };
            let kb = if lowered {
                lower_view(b@)
            } else {
                b@
            };
            &&& (r == -1 || r == 0 || r == 1)
            &&& (r == -1) == lex_lt(ka, kb)
            &&& (r == 0) == (ka == kb)
            &&& (r == 1) == lex_lt(kb, ka)
        }),
{
    let ghost ka = if lowered {
        lower_view(a@)
    } else {
        a@
    };
    let ghost kb = if lowered {
        lower_view(b@)
    } else {
        b@
    };
    let na = a.unicode_len();
    let nb = b.unicode_len();
    let n = if na < nb {
        na
    } else {
        nb
    };
    let mut i: usize = 0;
    while i < n
        invariant
            i <= n,
            na == a@.len(),
            nb == b@.len(),
            n == if na < nb {
                na
            } else {
                nb
            },
            ka == if lowered {
                lower_view(a@)
            } else {
                a@
            },
            kb == if lowered {
                lower_view(b@)
            } else {
                b@
            },
            ka.len() == na,
            kb.len() == nb,
            forall|j: int| 0 <= j < i ==> ka[j] == kb[j],
        decreases n - i,
    {
        let mut ca = a.get_char(i);
        let mut cb = b.get_char(i);
        if lowered {
            ca = to_lower_char(ca);
            cb = to_lower_char(cb);
        }
        proof {
            assert(ka[i as int] == ca);
            assert(kb[i as int] == cb);
        }
        if (ca as u32) < (cb as u32) {
            proof {
                lemma_lex_lt_from_diff(ka, kb, i as int);
                lemma_lex_trichotomy(ka, kb);
            }
            return -1;
        }
        if (ca as u32) > (cb as u32) {
            proof {
                lemma_lex_lt_from_diff(kb, ka, i as int);
                lemma_lex_trichotomy(ka, kb);
            }
            return 1;
        }
        proof {
            lemma_char_eq(ca, cb);
            assert(ka[i as int] == kb[i as int]);
        }
        i = i + 1;
    }
    if na < nb {
        proof {
            lemma_lex_lt_from_prefix(ka, kb);
            lemma_lex_trichotomy(ka, kb);
        }
        -1
    } else if na > nb {
        proof {
            lemma_lex_lt_from_prefix(kb, ka);
            lemma_lex_trichotomy(ka, kb);
        }
        1
    } else {
        proof {
            assert(ka =~= kb);
            lemma_lex_trichotomy(ka, kb);
        }
        0
    }
}

/// Inserting an element anywhere in a sequence adds it to the multiset.
pub proof fn lemma_seq_insert_multiset<A>(s: Seq<A>, p: int, x: A)
    requires
        0 <= p <= s.len(),
    ensures
        s.insert(p, x).to_multiset() =~= s.to_multiset().insert(x),
{
    broadcast use vstd::seq_lib::group_to_multiset_ensures;

    let single = seq![x];
    assert(s.insert(p, x) =~= s.take(p) + (single + s.skip(p)));
    assert(s =~= s.take(p) + s.skip(p));
    vstd::seq_lib::lemma_multiset_commutative(s.take(p), single + s.skip(p));
    vstd::seq_lib::lemma_multiset_commutative(single, s.skip(p));
    vstd::seq_lib::lemma_multiset_commutative(s.take(p), s.skip(p));
    assert(single =~= Seq::<A>::empty().push(x));
    assert(Seq::<A>::empty().to_multiset() =~= Multiset::<A>::empty());
    assert(single.to_multiset() =~= Multiset::<A>::empty().insert(x));
}

} // verus!
